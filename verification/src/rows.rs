//! Shape checks of row-major data: sample and feature counts, ragged rows,
//! query widths, and the flattening of output rows into one buffer.
use vstd::prelude::*;
use crate::knn::invalid_with;
use crate::text::{decimal, push_decimal, string_of};
use crate::types::UmapError;

verus! {

/// Mutable access to two different rows of `rows` at once.
pub fn two_rows_mut<T>(rows: &mut [Vec<T>], i: usize, j: usize) -> (out: (&mut Vec<T>, &mut Vec<T>))
    requires
        i != j,
        i < old(rows)@.len(),
        j < old(rows)@.len(),
    ensures
        *out.0 == old(rows)@[i as int],
        *out.1 == old(rows)@[j as int],
        final(rows)@ == old(rows)@.update(i as int, *final(out.0)).update(j as int, *final(out.1)),
{
    if i < j {
        let (left, right) = rows.split_at_mut(j);
        (&mut left[i], &mut right[0])
    } else {
        let (left, right) = rows.split_at_mut(i);
        (&mut right[0], &mut left[j])
    }
}

/// Checks input data of `n_rows` rows of `n_cols` features, where
/// `row_finite[r]` tells whether row `r` holds only finite values: at
/// least two rows, at least one feature, no non-finite value (the error
/// names the first row holding one). Gives `(n_rows, n_cols)`.
pub fn validate_data(n_rows: usize, n_cols: usize, row_finite: &[bool]) -> (r: Result<(usize, usize), UmapError>)
    requires
        row_finite.len() == n_rows,
    ensures
        n_rows == 0 ==> r matches Err(UmapError::EmptyData),
        n_rows == 1 ==> r matches Err(UmapError::NeedAtLeastTwoSamples),
        n_rows >= 2 && n_cols == 0 ==> (r matches Err(e) && invalid_with(
            e,
            "input rows must have at least one feature"@,
        )),
        n_rows >= 2 && n_cols > 0 ==> {
            &&& r is Ok <==> forall|t: int| 0 <= t < n_rows ==> #[trigger] row_finite[t]
            &&& r matches Ok(dims) ==> dims == (n_rows, n_cols)
            &&& r matches Err(e) ==> exists|row: int|
                0 <= row < n_rows && !#[trigger] row_finite[row] && (forall|t: int|
                    0 <= t < row ==> #[trigger] row_finite[t]) && invalid_with(
                    e,
                    "input contains non-finite value at row "@ + decimal(row as nat),
                )
        },
{
    if n_rows == 0 {
        return Err(UmapError::EmptyData);
    }
    if n_rows < 2 {
        return Err(UmapError::NeedAtLeastTwoSamples);
    }
    if n_cols == 0 {
        return Err(UmapError::InvalidParameter(string_of("input rows must have at least one feature")));
    }
    let mut row: usize = 0;
    while row < n_rows
        invariant
            row_finite.len() == n_rows,
            n_rows >= 2,
            n_cols > 0,
            row <= n_rows,
            forall|t: int| 0 <= t < row ==> #[trigger] row_finite[t],
        decreases n_rows - row,
    {
        if !row_finite[row] {
            let mut m = string_of("input contains non-finite value at row ");
            push_decimal(&mut m, row);
            return Err(UmapError::InvalidParameter(m));
        }
        row = row + 1;
    }
    Ok((n_rows, n_cols))
}

/// Checks row-major data given as rows: at least two rows, a non-empty
/// first row, and every row as wide as the first (the error names the
/// first row that is not). Gives `(rows, features)`.
pub fn validate_dense_data<T>(data: &[Vec<T>]) -> (r: Result<(usize, usize), UmapError>)
    ensures
        data.len() == 0 ==> r matches Err(UmapError::EmptyData),
        data.len() == 1 ==> r matches Err(UmapError::NeedAtLeastTwoSamples),
        data.len() >= 2 && data[0]@.len() == 0 ==> (r matches Err(e) && invalid_with(
            e,
            "input rows must have at least one feature"@,
        )),
        data.len() >= 2 && data[0]@.len() > 0 ==> {
            let f = data[0]@.len();
            &&& r is Ok <==> forall|t: int| 0 <= t < data.len() ==> (#[trigger] data[t])@.len() == f
            &&& r matches Ok(dims) ==> dims.0 == data.len() && dims.1 == f
            &&& r matches Err(e) ==> exists|row: int|
                0 < row < data.len() && (#[trigger] data[row])@.len() != f && (forall|t: int|
                    0 <= t < row ==> (#[trigger] data[t])@.len() == f) && e
                    == UmapError::InconsistentDimensions {
                    row: row as usize,
                    expected: f as usize,
                    got: data[row]@.len() as usize,
                }
        },
{
    if data.len() == 0 {
        return Err(UmapError::EmptyData);
    }
    if data.len() < 2 {
        return Err(UmapError::NeedAtLeastTwoSamples);
    }
    let n_features = data[0].len();
    if n_features == 0 {
        return Err(UmapError::InvalidParameter(string_of("input rows must have at least one feature")));
    }
    let mut row: usize = 1;
    while row < data.len()
        invariant
            data.len() >= 2,
            n_features == data[0]@.len(),
            n_features > 0,
            1 <= row <= data.len(),
            forall|t: int| 0 <= t < row ==> (#[trigger] data[t])@.len() == n_features,
        decreases data.len() - row,
    {
        if data[row].len() != n_features {
            return Err(
                UmapError::InconsistentDimensions {
                    row,
                    expected: n_features,
                    got: data[row].len(),
                },
            );
        }
        row = row + 1;
    }
    Ok((data.len(), n_features))
}

/// Checks that every query row has `expected_features` values: a first row
/// that differs is a feature mismatch, a later one an inconsistent row.
pub fn validate_query_dimensions<T>(query: &[Vec<T>], expected_features: usize) -> (r: Result<(), UmapError>)
    ensures
        r is Ok <==> forall|t: int| 0 <= t < query.len() ==> (#[trigger] query[t])@.len() == expected_features,
        r matches Err(e) ==> exists|row: int|
            0 <= row < query.len() && (#[trigger] query[row])@.len() != expected_features && (forall|t: int|
                0 <= t < row ==> (#[trigger] query[t])@.len() == expected_features) && e == (if row == 0 {
                UmapError::FeatureMismatch {
                    expected: expected_features,
                    got: query[row]@.len() as usize,
                }
            } else {
                UmapError::InconsistentDimensions {
                    row: row as usize,
                    expected: expected_features,
                    got: query[row]@.len() as usize,
                }
            }),
{
    let mut row: usize = 0;
    while row < query.len()
        invariant
            row <= query.len(),
            forall|t: int| 0 <= t < row ==> (#[trigger] query[t])@.len() == expected_features,
        decreases query.len() - row,
    {
        if query[row].len() != expected_features {
            if row == 0 {
                return Err(
                    UmapError::FeatureMismatch { expected: expected_features, got: query[row].len() },
                );
            }
            return Err(
                UmapError::InconsistentDimensions {
                    row,
                    expected: expected_features,
                    got: query[row].len(),
                },
            );
        }
        row = row + 1;
    }
    Ok(())
}

/// The rows laid end to end.
pub open spec fn concat_rows<T>(rows: Seq<Vec<T>>) -> Seq<T>
    decreases rows.len(),
{
    if rows.len() == 0 {
        Seq::empty()
    } else {
        concat_rows(rows.drop_last()) + rows.last()@
    }
}

/// Rows of width `w` laid end to end form a row-major buffer: it has
/// `rows.len() * w` entries, and entry `r * w + c` is `rows[r][c]`.
pub proof fn law_concat_rows_row_major<T>(rows: Seq<Vec<T>>, w: int)
    requires
        w >= 0,
        forall|t: int| 0 <= t < rows.len() ==> (#[trigger] rows[t])@.len() == w,
    ensures
        concat_rows(rows).len() == rows.len() * w,
        forall|r: int, c: int|
            0 <= r < rows.len() && 0 <= c < w ==> #[trigger] concat_rows(rows)[r * w + c] == rows[r]@[c],
    decreases rows.len(),
{
    if rows.len() > 0 {
        let init = rows.drop_last();
        let n = rows.len() - 1;
        law_concat_rows_row_major(init, w);
        assert(concat_rows(rows) == concat_rows(init) + rows.last()@);
        assert((n + 1) * w == n * w + w) by (nonlinear_arith);
        assert forall|r: int, c: int| 0 <= r < rows.len() && 0 <= c < w implies #[trigger] concat_rows(
            rows,
        )[r * w + c] == rows[r]@[c] by {
            if r < n {
                assert(r * w + c < n * w) by (nonlinear_arith)
                    requires
                        0 <= r < n,
                        0 <= c < w,
                ;
                assert(0 <= r * w) by (nonlinear_arith)
                    requires
                        0 <= r,
                        0 <= w,
                ;
                assert(init[r] == rows[r]);
            } else {
                assert(r * w == n * w);
            }
        }
    }
}

/// Flattens output rows into one row-major buffer: the width is that of the
/// first row (`empty_cols` when there is none) and every row must have it
/// (the error names the first row that does not). Gives the buffer, the
/// number of rows and the width.
pub fn dense_matrix_from_output_rows<T: Copy>(rows: &[Vec<T>], empty_cols: usize) -> (r: Result<
    (Vec<T>, usize, usize),
    UmapError,
>)
    ensures
        ({
            let w = if rows.len() == 0 { empty_cols as int } else { rows[0]@.len() as int };
            &&& r is Ok <==> forall|t: int| 0 <= t < rows.len() ==> (#[trigger] rows[t])@.len() == w
            &&& r matches Ok(m) ==> m.0@ == concat_rows(rows@) && m.1 == rows.len() && m.2 == w
            &&& r matches Ok(m) ==> m.0@.len() == rows.len() * w && forall|i: int, c: int|
                0 <= i < rows.len() && 0 <= c < w ==> #[trigger] m.0@[i * w + c] == rows[i]@[c]
            &&& r matches Err(e) ==> exists|row: int|
                0 <= row < rows.len() && (#[trigger] rows[row])@.len() != w && (forall|t: int|
                    0 <= t < row ==> (#[trigger] rows[t])@.len() == w) && e
                    == UmapError::InconsistentDimensions {
                    row: row as usize,
                    expected: w as usize,
                    got: rows[row]@.len() as usize,
                }
        }),
{
    let n_rows = rows.len();
    let n_cols = if n_rows == 0 { empty_cols } else { rows[0].len() };
    let mut data: Vec<T> = Vec::new();
    let mut row: usize = 0;
    while row < n_rows
        invariant
            n_rows == rows.len(),
            n_cols == (if n_rows == 0 { empty_cols as int } else { rows[0]@.len() as int }),
            row <= n_rows,
            forall|t: int| 0 <= t < row ==> (#[trigger] rows[t])@.len() == n_cols,
            data@ == concat_rows(rows@.take(row as int)),
        decreases n_rows - row,
    {
        let r = &rows[row];
        if r.len() != n_cols {
            return Err(UmapError::InconsistentDimensions { row, expected: n_cols, got: r.len() });
        }
        let ghost before = data@;
        let mut c: usize = 0;
        while c < r.len()
            invariant
                c <= r.len(),
                data@ == before + r@.take(c as int),
            decreases r.len() - c,
        {
            data.push(r[c]);
            proof {
                assert(data@ =~= before + r@.take(c + 1));
            }
            c = c + 1;
        }
        proof {
            assert(r@.take(r.len() as int) == r@);
            assert(rows@.take(row + 1).drop_last() == rows@.take(row as int));
            assert(rows@.take(row + 1).last() == rows@[row as int]);
        }
        row = row + 1;
    }
    proof {
        assert(rows@.take(n_rows as int) == rows@);
    }
    proof {
        assert forall|t: int| 0 <= t < rows@.len() implies (#[trigger] rows@[t])@.len() == n_cols by {
            assert(rows@[t] == rows[t]);
        }
        law_concat_rows_row_major(rows@, n_cols as int);
    }
    Ok((data, n_rows, n_cols))
}

} // verus!
