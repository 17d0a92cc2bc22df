//! Structural checks of a compressed sparse row (CSR) matrix: row pointers,
//! column indices and the value count, checked in a fixed order so that the
//! first problem found is the one reported.
use vstd::prelude::*;
use crate::knn::invalid_with;
use crate::text::{decimal, push_decimal, string_append, string_of};
use crate::types::UmapError;

verus! {

/// The row pointers, column count and value count are consistent: at least
/// one column, `n_rows + 1` row pointers starting at 0 and ending at the
/// number of stored entries, as many column indices as values.
pub open spec fn csr_header_ok(n_rows: int, n_cols: int, indptr: Seq<usize>, n_indices: int, data_len: int) -> bool {
    &&& n_cols > 0
    &&& indptr.len() == n_rows + 1
    &&& indptr[0] == 0
    &&& n_indices == data_len
    &&& indptr[n_rows] == n_indices
}

/// The first position `t` in `[i, end)` whose column index is not below
/// `n_cols`, or `end` when there is none.
pub open spec fn first_out_of_bounds(indices: Seq<usize>, n_cols: int, i: int, end: int) -> int
    decreases end - i,
{
    if i >= end {
        end
    } else if indices[i] >= n_cols {
        i
    } else {
        first_out_of_bounds(indices, n_cols, i + 1, end)
    }
}

/// The column index at `t` is not above the one before it.
pub open spec fn descends_at(indices: Seq<usize>, t: int) -> bool {
    indices[t - 1] >= indices[t]
}

/// The problem of row `r`, as its message, if any: its pointers decrease,
/// its column indices do not strictly increase, or one is out of bounds.
pub open spec fn csr_row_failure(indptr: Seq<usize>, indices: Seq<usize>, n_cols: int, r: int) -> Option<Seq<char>> {
    let start = indptr[r] as int;
    let end = indptr[r + 1] as int;
    if start > end {
        Some(
            "csr indptr must be non-decreasing, got indptr["@ + decimal(r as nat) + "]="@ + decimal(
                start as nat,
            ) + " > indptr["@ + decimal((r + 1) as nat) + "]="@ + decimal(end as nat),
        )
    } else if exists|t: int| start < t < end && #[trigger] descends_at(indices, t) {
        Some("csr row "@ + decimal(r as nat) + " indices must be strictly increasing"@)
    } else if first_out_of_bounds(indices, n_cols, start, end) < end {
        Some(
            "csr row "@ + decimal(r as nat) + " has column index "@ + decimal(
                indices[first_out_of_bounds(indices, n_cols, start, end)] as nat,
            ) + " out of bounds for n_cols="@ + decimal(n_cols as nat),
        )
    } else {
        None
    }
}

/// The first problem of rows `r..n_rows`, if any.
pub open spec fn csr_rows_failure(indptr: Seq<usize>, indices: Seq<usize>, n_cols: int, r: int, n_rows: int) -> Option<
    Seq<char>,
>
    decreases n_rows - r,
{
    if r >= n_rows {
        None
    } else {
        match csr_row_failure(indptr, indices, n_cols, r) {
            Some(m) => Some(m),
            None => csr_rows_failure(indptr, indices, n_cols, r + 1, n_rows),
        }
    }
}

proof fn lemma_first_out_of_bounds_range(indices: Seq<usize>, n_cols: int, i: int, end: int)
    requires
        i <= end,
    ensures
        i <= first_out_of_bounds(indices, n_cols, i, end) <= end,
        first_out_of_bounds(indices, n_cols, i, end) < end ==> indices[first_out_of_bounds(
            indices,
            n_cols,
            i,
            end,
        )] >= n_cols,
    decreases end - i,
{
    if i < end && indices[i] < n_cols {
        lemma_first_out_of_bounds_range(indices, n_cols, i + 1, end);
    }
}

proof fn lemma_rows_failure_step(indptr: Seq<usize>, indices: Seq<usize>, n_cols: int, r: int, n_rows: int)
    requires
        0 <= r < n_rows,
    ensures
        csr_row_failure(indptr, indices, n_cols, r) is None ==> csr_rows_failure(
            indptr,
            indices,
            n_cols,
            r,
            n_rows,
        ) == csr_rows_failure(indptr, indices, n_cols, r + 1, n_rows),
        csr_row_failure(indptr, indices, n_cols, r) is Some ==> csr_rows_failure(
            indptr,
            indices,
            n_cols,
            r,
            n_rows,
        ) == csr_row_failure(indptr, indices, n_cols, r),
{
}

/// The row scan stops at a row whose slice of column indices would reach
/// past the stored entries (the checks before it having passed).
pub open spec fn csr_scan_overruns(indptr: Seq<usize>, indices: Seq<usize>, n_cols: int, n_rows: int) -> bool {
    exists|r: int|
        0 <= r < n_rows && (forall|r2: int|
            0 <= r2 < r ==> #[trigger] csr_row_failure(indptr, indices, n_cols, r2) is None)
            && indptr[r] <= indptr[r + 1] && #[trigger] indptr[r + 1] > indices.len()
}

/// The message of the first structural problem of a CSR matrix, if any.
pub open spec fn csr_failure(
    n_rows: int,
    n_cols: int,
    indptr: Seq<usize>,
    indices: Seq<usize>,
    data_len: int,
    data_finite: bool,
) -> Option<Seq<char>> {
    if n_cols == 0 {
        Some("csr n_cols must be >= 1"@)
    } else if indptr.len() != n_rows + 1 {
        Some(
            "csr indptr length must be n_rows + 1 (got "@ + decimal(indptr.len()) + ", expected "@
                + decimal((n_rows + 1) as nat) + ")"@,
        )
    } else if indptr[0] != 0 {
        Some("csr indptr must start from 0"@)
    } else if indices.len() != data_len {
        Some("csr indices/data lengths must match"@)
    } else if indptr[n_rows] != indices.len() {
        Some(
            "csr indptr last value ("@ + decimal(indptr[n_rows] as nat) + ") must equal nnz ("@
                + decimal(indices.len()) + ")"@,
        )
    } else {
        match csr_rows_failure(indptr, indices, n_cols, 0, n_rows) {
            Some(m) => Some(m),
            None => if !data_finite {
                Some("csr data must be finite"@)
            } else {
                None
            },
        }
    }
}

/// Whether the row scan of `validate_csr_structure` would index past the
/// stored entries; such inputs are outside its domain.
pub fn csr_scan_would_overrun(n_rows: usize, n_cols: usize, indptr: &[usize], indices: &[usize], data_len: usize) -> (b: bool)
    requires
        n_rows < usize::MAX,
    ensures
        b == (csr_header_ok(n_rows as int, n_cols as int, indptr@, indices.len() as int, data_len as int)
            && csr_scan_overruns(indptr@, indices@, n_cols as int, n_rows as int)),
{
    if n_cols == 0 || indptr.len() != n_rows + 1 || indptr[0] != 0 || indices.len() != data_len
        || indptr[n_rows] != indices.len() {
        return false;
    }
    let mut row: usize = 0;
    while row < n_rows
        invariant
            indptr.len() == n_rows + 1,
            n_cols > 0,
            indptr@[0] == 0,
            indices.len() == data_len,
            indptr@[n_rows as int] == indices.len(),
            row <= n_rows,
            forall|r2: int| 0 <= r2 < row ==> #[trigger] csr_row_failure(indptr@, indices@, n_cols as int, r2) is None,
            forall|r2: int| 0 <= r2 < row ==> #[trigger] indptr@[r2 + 1] <= indices.len(),
        decreases n_rows - row,
    {
        let start = indptr[row];
        let end = indptr[row + 1];
        if start <= end && end > indices.len() {
            proof {
                assert(indptr@[row + 1] > indices.len());
                assert(0 <= row < n_rows && (forall|r2: int|
                    0 <= r2 < row ==> #[trigger] csr_row_failure(indptr@, indices@, n_cols as int, r2)
                        is None) && indptr[row as int] <= indptr[row + 1] && indptr@[row + 1]
                    > indices.len());
            }
            return true;
        }
        let failed = if start > end {
            true
        } else {
            match check_csr_row(indices, start, end, n_cols, row) {
                Some(_) => {
                    proof {
                        lemma_first_out_of_bounds_range(indices@, n_cols as int, start as int, end as int);
                    }
                    true
                },
                None => false,
            }
        };
        if failed {
            proof {
                assert(csr_row_failure(indptr@, indices@, n_cols as int, row as int) is Some);
                assert forall|r: int|
                    0 <= r < n_rows && (forall|r2: int|
                        0 <= r2 < r ==> #[trigger] csr_row_failure(indptr@, indices@, n_cols as int, r2)
                            is None) && indptr[r] <= indptr[r + 1] implies !(#[trigger] indptr[r + 1]
                    > indices.len()) by {
                    if r > row {
                        assert(csr_row_failure(indptr@, indices@, n_cols as int, row as int) is None);
                    } else if r < row {
                        assert(indptr@[r + 1] <= indices.len());
                    }
                }
            }
            return false;
        }
        row = row + 1;
    }
    proof {
        assert forall|r: int|
            0 <= r < n_rows && (forall|r2: int|
                0 <= r2 < r ==> #[trigger] csr_row_failure(indptr@, indices@, n_cols as int, r2) is None)
                && indptr[r] <= indptr[r + 1] implies !(#[trigger] indptr[r + 1] > indices.len()) by {
            assert(indptr@[r + 1] <= indices.len());
        }
    }
    false
}

/// The checks of one row whose entries are `indices[start..end]`
/// (`start <= end <= indices.len()`): strictly increasing column indices,
/// then every column index below `n_cols`. Gives the row's message.
fn check_csr_row(indices: &[usize], start: usize, end: usize, n_cols: usize, row: usize) -> (r: Option<String>)
    requires
        start <= end <= indices.len(),
    ensures
        r is None <==> !(exists|t: int| start < t < end && #[trigger] descends_at(indices@, t))
            && first_out_of_bounds(indices@, n_cols as int, start as int, end as int) == end,
        r matches Some(m) ==> (if exists|t: int| start < t < end && #[trigger] descends_at(indices@, t) {
            m@ == "csr row "@ + decimal(row as nat) + " indices must be strictly increasing"@
        } else {
            m@ == "csr row "@ + decimal(row as nat) + " has column index "@ + decimal(
                indices[first_out_of_bounds(indices@, n_cols as int, start as int, end as int)] as nat,
            ) + " out of bounds for n_cols="@ + decimal(n_cols as nat)
        }),
{
    let mut t: usize = start;
    while t < end
        invariant
            start <= t <= end <= indices.len(),
            forall|u: int| start < u < t ==> !#[trigger] descends_at(indices@, u),
        decreases end - t,
    {
        if t > start && indices[t - 1] >= indices[t] {
            proof {
                assert(descends_at(indices@, t as int));
            }
            let mut m = string_of("csr row ");
            push_decimal(&mut m, row);
            string_append(&mut m, " indices must be strictly increasing");
            return Some(m);
        }
        proof {
            if t > start {
                assert(!descends_at(indices@, t as int));
            }
        }
        t = t + 1;
    }
    proof {
        assert(!(exists|u: int| start < u < end && #[trigger] descends_at(indices@, u)));
    }
    let mut t: usize = start;
    while t < end
        invariant
            start <= t <= end <= indices.len(),
            !(exists|u: int| start < u < end && #[trigger] descends_at(indices@, u)),
            first_out_of_bounds(indices@, n_cols as int, start as int, end as int) == first_out_of_bounds(
                indices@,
                n_cols as int,
                t as int,
                end as int,
            ),
        decreases end - t,
    {
        if indices[t] >= n_cols {
            proof {
                assert(first_out_of_bounds(indices@, n_cols as int, t as int, end as int) == t);
            }
            let mut m = string_of("csr row ");
            push_decimal(&mut m, row);
            string_append(&mut m, " has column index ");
            push_decimal(&mut m, indices[t]);
            string_append(&mut m, " out of bounds for n_cols=");
            push_decimal(&mut m, n_cols);
            return Some(m);
        }
        proof {
            assert(first_out_of_bounds(indices@, n_cols as int, t as int, end as int)
                == first_out_of_bounds(indices@, n_cols as int, t + 1, end as int));
        }
        t = t + 1;
    }
    proof {
        assert(first_out_of_bounds(indices@, n_cols as int, end as int, end as int) == end);
    }
    None
}

/// Checks the structure of a CSR matrix of `n_rows` rows and `n_cols`
/// columns, then whether its `data_len` values are all finite
/// (`data_finite`); reports the first problem, as `csr_failure` orders
/// them. Inputs on which the row scan would index past the stored entries
/// are excluded (see `csr_scan_would_overrun`).
pub fn validate_csr_structure(
    n_rows: usize,
    n_cols: usize,
    indptr: &[usize],
    indices: &[usize],
    data_len: usize,
    data_finite: bool,
) -> (r: Result<(), UmapError>)
    requires
        n_rows < usize::MAX,
        csr_header_ok(n_rows as int, n_cols as int, indptr@, indices.len() as int, data_len as int)
            ==> !csr_scan_overruns(indptr@, indices@, n_cols as int, n_rows as int),
    ensures
        csr_failure(n_rows as int, n_cols as int, indptr@, indices@, data_len as int, data_finite)
            is None ==> r is Ok,
        csr_failure(n_rows as int, n_cols as int, indptr@, indices@, data_len as int, data_finite)
            matches Some(msg) ==> (r matches Err(e) && invalid_with(e, msg)),
{
    if n_cols == 0 {
        return Err(UmapError::InvalidParameter(string_of("csr n_cols must be >= 1")));
    }
    if indptr.len() != n_rows + 1 {
        let mut m = string_of("csr indptr length must be n_rows + 1 (got ");
        push_decimal(&mut m, indptr.len());
        string_append(&mut m, ", expected ");
        push_decimal(&mut m, n_rows + 1);
        string_append(&mut m, ")");
        return Err(UmapError::InvalidParameter(m));
    }
    if indptr[0] != 0 {
        return Err(UmapError::InvalidParameter(string_of("csr indptr must start from 0")));
    }
    if indices.len() != data_len {
        return Err(UmapError::InvalidParameter(string_of("csr indices/data lengths must match")));
    }
    if indptr[n_rows] != indices.len() {
        let mut m = string_of("csr indptr last value (");
        push_decimal(&mut m, indptr[n_rows]);
        string_append(&mut m, ") must equal nnz (");
        push_decimal(&mut m, indices.len());
        string_append(&mut m, ")");
        return Err(UmapError::InvalidParameter(m));
    }
    let mut row: usize = 0;
    while row < n_rows
        invariant
            indptr.len() == n_rows + 1,
            n_cols > 0,
            indptr@[0] == 0,
            indices.len() == data_len,
            indptr@[n_rows as int] == indices.len(),
            row <= n_rows,
            !csr_scan_overruns(indptr@, indices@, n_cols as int, n_rows as int),
            forall|r2: int| 0 <= r2 < row ==> #[trigger] csr_row_failure(indptr@, indices@, n_cols as int, r2) is None,
            csr_rows_failure(indptr@, indices@, n_cols as int, 0, n_rows as int) == csr_rows_failure(
                indptr@,
                indices@,
                n_cols as int,
                row as int,
                n_rows as int,
            ),
        decreases n_rows - row,
    {
        let start = indptr[row];
        let end = indptr[row + 1];
        proof {
            lemma_rows_failure_step(indptr@, indices@, n_cols as int, row as int, n_rows as int);
        }
        if start > end {
            let mut m = string_of("csr indptr must be non-decreasing, got indptr[");
            push_decimal(&mut m, row);
            string_append(&mut m, "]=");
            push_decimal(&mut m, start);
            string_append(&mut m, " > indptr[");
            push_decimal(&mut m, row + 1);
            string_append(&mut m, "]=");
            push_decimal(&mut m, end);
            proof {
                assert(csr_row_failure(indptr@, indices@, n_cols as int, row as int) == Some(m@));
            }
            return Err(UmapError::InvalidParameter(m));
        }
        proof {
            if end > indices.len() {
                assert(indptr@[row + 1] > indices.len());
                assert(csr_scan_overruns(indptr@, indices@, n_cols as int, n_rows as int));
            }
        }
        match check_csr_row(indices, start, end, n_cols, row) {
            Some(m) => {
                proof {
                    lemma_first_out_of_bounds_range(indices@, n_cols as int, start as int, end as int);
                    assert(csr_row_failure(indptr@, indices@, n_cols as int, row as int) == Some(m@));
                }
                return Err(UmapError::InvalidParameter(m));
            },
            None => {},
        }
        row = row + 1;
    }
    if !data_finite {
        return Err(UmapError::InvalidParameter(string_of("csr data must be finite")));
    }
    Ok(())
}

proof fn lemma_rows_clean_from(indptr: Seq<usize>, indices: Seq<usize>, n_cols: int, r: int, n_rows: int)
    requires
        0 <= r,
        csr_rows_failure(indptr, indices, n_cols, r, n_rows) is None,
    ensures
        forall|r2: int| r <= r2 < n_rows ==> #[trigger] csr_row_failure(indptr, indices, n_cols, r2) is None,
    decreases n_rows - r,
{
    if r < n_rows {
        lemma_rows_clean_from(indptr, indices, n_cols, r + 1, n_rows);
    }
}

proof fn lemma_no_out_of_bounds(indices: Seq<usize>, n_cols: int, i: int, end: int)
    requires
        i <= end,
        first_out_of_bounds(indices, n_cols, i, end) == end,
    ensures
        forall|t: int| i <= t < end ==> #[trigger] indices[t] < n_cols,
    decreases end - i,
{
    if i < end {
        lemma_no_out_of_bounds(indices, n_cols, i + 1, end);
    }
}

proof fn lemma_pointers_below_last(indptr: Seq<usize>, r: int, n_rows: int)
    requires
        0 <= r <= n_rows < indptr.len(),
        forall|r2: int| 0 <= r2 < n_rows ==> #[trigger] indptr[r2] <= indptr[r2 + 1],
    ensures
        indptr[r] <= indptr[n_rows],
    decreases n_rows - r,
{
    if r < n_rows {
        lemma_pointers_below_last(indptr, r + 1, n_rows);
    }
}

/// An accepted CSR matrix has well-formed rows: every row's pointers are
/// non-decreasing and stay within the stored entries, its column indices
/// strictly increase and lie below `n_cols`.
pub proof fn law_accepted_csr_rows_well_formed(
    n_rows: int,
    n_cols: int,
    indptr: Seq<usize>,
    indices: Seq<usize>,
    data_len: int,
    data_finite: bool,
)
    requires
        n_rows >= 0,
        csr_failure(n_rows, n_cols, indptr, indices, data_len, data_finite) is None,
    ensures
        forall|r: int|
            0 <= r < n_rows ==> #[trigger] indptr[r] <= indptr[r + 1] && indptr[r + 1] <= indices.len(),
        forall|r: int, t: int|
            #![trigger indptr[r], indices[t]]
            0 <= r < n_rows && indptr[r] <= t < indptr[r + 1] ==> indices[t] < n_cols && (t > indptr[r]
                ==> indices[t - 1] < indices[t]),
{
    lemma_rows_clean_from(indptr, indices, n_cols, 0, n_rows);
    assert forall|r2: int| 0 <= r2 < n_rows implies #[trigger] indptr[r2] <= indptr[r2 + 1] by {
        assert(csr_row_failure(indptr, indices, n_cols, r2) is None);
    }
    assert forall|r: int| 0 <= r < n_rows implies #[trigger] indptr[r] <= indptr[r + 1] && indptr[r
        + 1] <= indices.len() by {
        lemma_pointers_below_last(indptr, r + 1, n_rows);
    }
    assert forall|r: int, t: int|
        #![trigger indptr[r], indices[t]]
        0 <= r < n_rows && indptr[r] <= t < indptr[r + 1] implies indices[t] < n_cols && (t > indptr[r]
            ==> indices[t - 1] < indices[t]) by {
        assert(csr_row_failure(indptr, indices, n_cols, r) is None);
        let start = indptr[r] as int;
        let end = indptr[r + 1] as int;
        lemma_first_out_of_bounds_range(indices, n_cols, start, end);
        lemma_no_out_of_bounds(indices, n_cols, start, end);
        if t > start {
            assert(!descends_at(indices, t));
        }
    }
}

} // verus!
