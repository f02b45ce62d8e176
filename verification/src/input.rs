//! Turning caller input into dataset columns: column kinds given by name,
//! column references given as (possibly negative) indices, a column-major
//! value matrix, and categorical columns given as strings.

use vstd::prelude::*;

use crate::coding::{first_seen, is_first_seen_coding, lemma_first_seen, lemma_first_seen_take};
use crate::dataset::ColumnKind;

verus! {

/// Parse a column kind: `"discrete"` or `"continuous"`; `None` for any other
/// text.
pub fn parse_kind(kind: &str) -> (res: Option<ColumnKind>)
    ensures
        res == Some(ColumnKind::Discrete) <==> kind@ == "discrete"@,
        res == Some(ColumnKind::Continuous) <==> kind@ == "continuous"@,
        res is None <==> kind@ != "discrete"@ && kind@ != "continuous"@,
{
    proof {
        reveal_strlit("discrete");
        reveal_strlit("continuous");
        assert("discrete"@.len() != "continuous"@.len());
    }
    if kind.to_owned() == "discrete".to_owned() {
        Some(ColumnKind::Discrete)
    } else if kind.to_owned() == "continuous".to_owned() {
        Some(ColumnKind::Continuous)
    } else {
        None
    }
}

/// The column a (possibly negative) index refers to among `n_cols` columns,
/// counting from the end for a negative index; `None` when out of range.
pub open spec fn resolved_index(idx: int, n_cols: nat) -> Option<nat> {
    if 0 <= idx < n_cols {
        Some(idx as nat)
    } else if -n_cols <= idx < 0 {
        Some((n_cols + idx) as nat)
    } else {
        None
    }
}

/// Resolve a column index among `n_cols` columns, counting from the end for
/// a negative index (`-1` is the last column); `None` when it is out of range.
pub fn resolve_index(idx: isize, n_cols: usize) -> (res: Option<usize>)
    ensures
        match res {
            Some(c) => resolved_index(idx as int, n_cols as nat) == Some(c as nat),
            None => resolved_index(idx as int, n_cols as nat) is None,
        },
{
    if idx < 0 {
        let back = (-(idx + 1)) as usize + 1;
        if back > n_cols {
            None
        } else {
            Some(n_cols - back)
        }
    } else {
        let i = idx as usize;
        if i >= n_cols {
            None
        } else {
            Some(i)
        }
    }
}

/// Why a column-major value matrix could not be split into columns.
#[derive(Debug, Clone, Copy, PartialEq, Eq)]
pub enum MatrixShapeError {
    /// The numbers of names and of kinds differ.
    NamesAndKinds { names: usize, kinds: usize },
    /// The matrix has a different number of columns than there are names.
    ColumnCount { matrix: usize, names: usize },
}

/// Split a column-major `nrow × ncol` value matrix into named, typed
/// columns: column `j` holds entries `j·nrow .. (j+1)·nrow`.
///
/// Errors: [`MatrixShapeError::NamesAndKinds`] when `names` and `kinds`
/// differ in length, otherwise [`MatrixShapeError::ColumnCount`] when
/// `ncol` differs from the number of names.
pub fn split_column_major(
    names: Vec<String>,
    kinds: Vec<ColumnKind>,
    data: &[u64],
    nrow: usize,
    ncol: usize,
) -> (res: Result<Vec<(String, ColumnKind, Vec<u64>)>, MatrixShapeError>)
    requires
        data@.len() == nrow * ncol,
    ensures
        names@.len() != kinds@.len() <==> res == Err::<Vec<(String, ColumnKind, Vec<u64>)>, MatrixShapeError>(
            MatrixShapeError::NamesAndKinds { names: names@.len() as usize, kinds: kinds@.len() as usize },
        ),
        names@.len() == kinds@.len() && ncol != names@.len() <==> res == Err::<
            Vec<(String, ColumnKind, Vec<u64>)>,
            MatrixShapeError,
        >(MatrixShapeError::ColumnCount { matrix: ncol, names: names@.len() as usize }),
        res matches Ok(cols) ==> {
            &&& cols@.len() == ncol
            &&& forall|j: int|
                0 <= j < ncol ==> (#[trigger] cols@[j]).0@ == names@[j]@ && cols@[j].1 == kinds@[j] && cols@[j].2@
                    == data@.subrange(j * nrow, (j + 1) * nrow)
        },
{
    let n_cols = names.len();
    if kinds.len() != n_cols {
        return Err(MatrixShapeError::NamesAndKinds { names: n_cols, kinds: kinds.len() });
    }
    if ncol != n_cols {
        return Err(MatrixShapeError::ColumnCount { matrix: ncol, names: n_cols });
    }
    let ghost names0 = names@;
    let mut cols: Vec<(String, ColumnKind, Vec<u64>)> = Vec::with_capacity(n_cols);
    let mut names = names;
    let mut taken: Vec<String> = Vec::with_capacity(n_cols);
    // Take the names out in order by reversing them first.
    while names.len() > 0
        invariant
            names@.len() + taken@.len() == names0.len(),
            forall|k: int| 0 <= k < names@.len() ==> #[trigger] names@[k] == names0[k],
            forall|k: int| 0 <= k < taken@.len() ==> #[trigger] taken@[k] == names0[names0.len() - 1 - k],
        decreases names.len(),
    {
        let name = names.pop().unwrap();
        taken.push(name);
    }
    let total = data.len();
    let mut j: usize = 0;
    while j < ncol
        invariant
            total == data@.len(),
            j <= ncol,
            ncol == names0.len(),
            ncol == kinds@.len(),
            data@.len() == nrow * ncol,
            taken@.len() == ncol - j,
            forall|k: int| 0 <= k < taken@.len() ==> #[trigger] taken@[k] == names0[names0.len() - 1 - k],
            cols@.len() == j,
            forall|k: int|
                0 <= k < j ==> (#[trigger] cols@[k]).0@ == names0[k]@ && cols@[k].1 == kinds@[k] && cols@[k].2@
                    == data@.subrange(k * nrow, (k + 1) * nrow),
        decreases ncol - j,
    {
        let name = taken.pop().unwrap();
        proof {
            assert(name == names0[j as int]);
            assert((j + 1) * nrow <= ncol * nrow) by (nonlinear_arith)
                requires
                    j + 1 <= ncol,
            ;
            assert(j * nrow + nrow == (j + 1) * nrow) by (nonlinear_arith);
            assert(nrow * ncol == ncol * nrow) by (nonlinear_arith);
            assert(j * nrow <= (j + 1) * nrow) by (nonlinear_arith);
        }
        let start = j * nrow;
        let mut col: Vec<u64> = Vec::with_capacity(nrow);
        let mut r: usize = 0;
        while r < nrow
            invariant
                r <= nrow,
                total == data@.len(),
                start + nrow <= data@.len(),
                col@ == data@.subrange(start as int, start + r),
            decreases nrow - r,
        {
            col.push(data[start + r]);
            proof {
                assert(data@.subrange(start as int, start + r + 1) =~= data@.subrange(start as int, start + r).push(
                    data@[start + r],
                ));
            }
            r += 1;
        }
        cols.push((name, kinds[j], col));
        j += 1;
    }
    Ok(cols)
}

/// Whether `s` holds `t`.
fn contains_text(s: &Vec<String>, t: &String) -> (res: Option<usize>)
    ensures
        match res {
            Some(i) => i < s@.len() && s@[i as int]@ == t@,
            None => forall|i: int| 0 <= i < s@.len() ==> s@[i]@ != t@,
        },
{
    let mut i: usize = 0;
    while i < s.len()
        invariant
            i <= s@.len(),
            forall|k: int| 0 <= k < i ==> s@[k]@ != t@,
        decreases s.len() - i,
    {
        if s[i] == *t {
            return Some(i);
        }
        i += 1;
    }
    None
}

/// The texts of a sequence of strings.
pub open spec fn texts(values: Seq<String>) -> Seq<Seq<char>> {
    values.map_values(|s: String| s@)
}

/// Number categorical values given as strings in first-seen order: equal
/// strings share a code, and codes run `0..` in the order their string first
/// occurs. Returns the codes and the number of distinct strings.
pub fn factorize_strings(values: &Vec<String>) -> (res: (Vec<usize>, usize))
    ensures
        is_first_seen_coding(texts(values@), res.0@, res.1 as nat),
{
    let ghost keys = texts(values@);
    let mut seen: Vec<String> = Vec::new();
    let mut codes: Vec<usize> = Vec::with_capacity(values.len());
    let mut i: usize = 0;
    while i < values.len()
        invariant
            keys == texts(values@),
            i <= values@.len(),
            texts(seen@) == first_seen(keys.take(i as int)),
            codes@.len() == i,
            forall|j: int| 0 <= j < i ==> (#[trigger] codes@[j] as int) < seen@.len() && texts(seen@)[codes@[j] as int] == keys[j],
        decreases values.len() - i,
    {
        proof {
            lemma_first_seen_take(keys, i as int);
            lemma_first_seen(keys.take(i as int));
            assert(keys[i as int] == values@[i as int]@);
        }
        match contains_text(&seen, &values[i]) {
            Some(c) => {
                proof {
                    assert(texts(seen@)[c as int] == keys[i as int]);
                    assert(texts(seen@).contains(keys[i as int]));
                }
                codes.push(c);
            },
            None => {
                proof {
                    assert(!texts(seen@).contains(keys[i as int])) by {
                        if texts(seen@).contains(keys[i as int]) {
                            let k = choose|k: int| 0 <= k < texts(seen@).len() && texts(seen@)[k] == keys[i as int];
                            assert(seen@[k]@ == values@[i as int]@);
                        }
                    }
                    assert(seen@.len() <= i);
                }
                let code = seen.len();
                let ghost before = seen@;
                seen.push(values[i].clone());
                proof {
                    assert(seen@ == before.push(values@[i as int]));
                    assert(texts(seen@) =~= texts(before).push(keys[i as int]));
                }
                codes.push(code);
            },
        }
        i += 1;
    }
    proof {
        assert(keys.take(keys.len() as int) =~= keys);
    }
    (codes, seen.len())
}

} // verus!
