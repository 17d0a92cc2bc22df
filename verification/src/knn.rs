//! Checks on precomputed nearest-neighbour graphs and on flat matrix shapes,
//! and the integer choices of the neighbour search.
use vstd::prelude::*;
use crate::text::{decimal, push_decimal, string_append, string_of};
use crate::types::UmapError;

verus! {

/// `e` is `InvalidParameter` with the message `msg`.
pub open spec fn invalid_with(e: UmapError, msg: Seq<char>) -> bool {
    e matches UmapError::InvalidParameter(m) && m@ == msg
}

/// `a * b`, or `usize::MAX` when the product does not fit.
pub open spec fn saturating_product(a: usize, b: usize) -> usize {
    if a * b > usize::MAX {
        usize::MAX
    } else {
        (a * b) as usize
    }
}

/// `usize::saturating_mul`.
pub fn saturating_mul(a: usize, b: usize) -> (p: usize)
    ensures
        p == saturating_product(a, b),
{
    match a.checked_mul(b) {
        Some(v) => v,
        None => usize::MAX,
    }
}

fn invalid_parameter(msg: &str) -> (e: UmapError)
    ensures
        invalid_with(e, msg@),
{
    UmapError::InvalidParameter(string_of(msg))
}

/// The message `{prefix}{expected}, got {got}`.
fn expected_got_message(prefix: &str, expected: usize, got: usize) -> (m: String)
    ensures
        m@ == prefix@ + decimal(expected as nat) + ", got "@ + decimal(got as nat),
{
    let mut m = string_of(prefix);
    push_decimal(&mut m, expected);
    string_append(&mut m, ", got ");
    push_decimal(&mut m, got);
    m
}

/// Shape check of a precomputed kNN graph given as two arrays: identical
/// shapes, one row per sample, at least `n_neighbors` columns.
pub fn validate_precomputed_array_shapes(
    data_n_rows: usize,
    knn_indices_rows: usize,
    knn_indices_cols: usize,
    knn_dists_rows: usize,
    knn_dists_cols: usize,
    n_neighbors: usize,
) -> (r: Result<(), UmapError>)
    ensures
        (knn_indices_rows != knn_dists_rows || knn_indices_cols != knn_dists_cols) ==> (r matches Err(
            e,
        ) && invalid_with(e, "knn_indices and knn_dists must have identical shapes"@)),
        (knn_indices_rows == knn_dists_rows && knn_indices_cols == knn_dists_cols
            && knn_indices_rows != data_n_rows) ==> (r matches Err(e) && invalid_with(
            e,
            "knn row count must match data row count"@,
        )),
        (knn_indices_rows == knn_dists_rows && knn_indices_cols == knn_dists_cols
            && knn_indices_rows == data_n_rows && knn_indices_cols < n_neighbors) ==> (r matches Err(
            e,
        ) && invalid_with(
            e,
            "knn columns must be >= n_neighbors ("@ + decimal(n_neighbors as nat) + ")"@,
        )),
        (knn_indices_rows == knn_dists_rows && knn_indices_cols == knn_dists_cols
            && knn_indices_rows == data_n_rows && knn_indices_cols >= n_neighbors) ==> r is Ok,
{
    if knn_indices_rows != knn_dists_rows || knn_indices_cols != knn_dists_cols {
        return Err(invalid_parameter("knn_indices and knn_dists must have identical shapes"));
    }
    if knn_indices_rows != data_n_rows {
        return Err(invalid_parameter("knn row count must match data row count"));
    }
    if knn_indices_cols < n_neighbors {
        let mut m = string_of("knn columns must be >= n_neighbors (");
        push_decimal(&mut m, n_neighbors);
        string_append(&mut m, ")");
        return Err(UmapError::InvalidParameter(m));
    }
    Ok(())
}

/// Converts a flat row-major array of signed kNN indices (`n_cols` per
/// row) into rows of indices, refusing a length other than
/// `n_rows * n_cols` (saturating) and any negative index among the whole
/// rows (a trailing partial row, possible only when the product saturates,
/// is ignored).
#[verifier::spinoff_prover]
pub fn precomputed_knn_indices_from_i64_flat(knn_indices: &[i64], n_rows: usize, n_cols: usize) -> (r:
    Result<Vec<Vec<usize>>, UmapError>)
    requires
        n_cols > 0 || knn_indices.len() > 0,
    ensures
        knn_indices.len() != saturating_product(n_rows, n_cols) ==> (r matches Err(e)
            && invalid_with(
            e,
            "flat knn_indices length mismatch: expected "@ + decimal(
                saturating_product(n_rows, n_cols) as nat,
            ) + ", got "@ + decimal(knn_indices.len() as nat),
        )),
        knn_indices.len() == saturating_product(n_rows, n_cols) ==> (
        (exists|i: int|
            0 <= i < (knn_indices.len() / n_cols) * n_cols && #[trigger] knn_indices[i] < 0) ==> (r matches Err(
            e,
        ) && invalid_with(e, "knn indices must be non-negative integers"@))),
        knn_indices.len() == saturating_product(n_rows, n_cols) ==> (
        (forall|i: int|
            0 <= i < (knn_indices.len() / n_cols) * n_cols ==> #[trigger] knn_indices[i] >= 0) ==> (r matches Ok(
            rows,
        ) && rows.len() == knn_indices.len() / n_cols && forall|a: int, b: int|
            0 <= a < rows.len() && 0 <= b < n_cols ==> #[trigger] rows[a][b] == knn_indices[a
                * n_cols + b] as usize && rows[a].len() == n_cols)),
{
    let expected_len = saturating_mul(n_rows, n_cols);
    if knn_indices.len() != expected_len {
        return Err(
            UmapError::InvalidParameter(
                expected_got_message(
                    "flat knn_indices length mismatch: expected ",
                    expected_len,
                    knn_indices.len(),
                ),
            ),
        );
    }
    proof {
        if n_cols == 0 {
            assert(n_rows * n_cols == 0) by (nonlinear_arith)
                requires
                    n_cols == 0,
            ;
        }
    }
    let n_chunks = knn_indices.len() / n_cols;
    let mut rows: Vec<Vec<usize>> = Vec::new();
    let mut a: usize = 0;
    while a < n_chunks
        invariant
            n_cols > 0,
            knn_indices.len() == expected_len,
            expected_len == saturating_product(n_rows, n_cols),
            n_chunks == knn_indices.len() / n_cols,
            a <= n_chunks,
            rows.len() == a,
            forall|i: int| 0 <= i < a * n_cols ==> #[trigger] knn_indices[i] >= 0,
            forall|x: int, y: int|
                0 <= x < a && 0 <= y < n_cols ==> #[trigger] rows[x][y] == knn_indices[x * n_cols
                    + y] as usize && rows[x].len() == n_cols,
        decreases n_chunks - a,
    {
        proof {
            assert((a + 1) * n_cols <= knn_indices.len()) by (nonlinear_arith)
                requires
                    a < n_chunks,
                    n_chunks == knn_indices.len() / n_cols,
                    n_cols > 0,
            ;
            assert(a * n_cols + n_cols == (a + 1) * n_cols) by (nonlinear_arith);
            assert((a + 1) * n_cols <= n_chunks * n_cols) by (nonlinear_arith)
                requires
                    a < n_chunks,
                    n_cols > 0,
            ;
        }
        let base = a * n_cols;
        let mut out_row: Vec<usize> = Vec::new();
        let mut b: usize = 0;
        while b < n_cols
            invariant
                knn_indices.len() == expected_len,
                expected_len == saturating_product(n_rows, n_cols),
                n_chunks == knn_indices.len() / n_cols,
                a < n_chunks,
                n_cols > 0,
                base == a * n_cols,
                base + n_cols <= knn_indices.len(),
                base + n_cols <= n_chunks * n_cols,
                b <= n_cols,
                out_row.len() == b,
                forall|i: int| 0 <= i < a * n_cols ==> #[trigger] knn_indices[i] >= 0,
                forall|i: int| base <= i < base + b ==> #[trigger] knn_indices[i] >= 0,
                forall|y: int| 0 <= y < b ==> #[trigger] out_row[y] == knn_indices[base + y] as usize,
            decreases n_cols - b,
        {
            let idx = knn_indices[base + b];
            if idx < 0 {
                proof {
                    assert(0 <= base + b < (knn_indices.len() / n_cols) * n_cols);
                    assert(knn_indices[base + b as int] < 0);
                }
                return Err(invalid_parameter("knn indices must be non-negative integers"));
            }
            out_row.push(idx as usize);
            b = b + 1;
        }
        rows.push(out_row);
        proof {
            assert forall|i: int| 0 <= i < (a + 1) * n_cols implies #[trigger] knn_indices[i] >= 0 by {
                assert((a + 1) * n_cols == a * n_cols + n_cols) by (nonlinear_arith);
            }
        }
        a = a + 1;
    }
    Ok(rows)
}

/// A borrowed row-major matrix of indices.
pub struct UsizeMatrixView<'a> {
    pub data: &'a [usize],
    pub n_rows: usize,
    pub n_cols: usize,
}

impl<'a> UsizeMatrixView<'a> {
    /// Views `data` as `n_rows` rows of `n_cols` indices; the length must
    /// be `n_rows * n_cols` (saturating).
    pub fn new(data: &'a [usize], n_rows: usize, n_cols: usize) -> (r: Result<Self, UmapError>)
        ensures
            data.len() == saturating_product(n_rows, n_cols) ==> (r matches Ok(v) && v.data@
                == data@ && v.n_rows == n_rows && v.n_cols == n_cols),
            data.len() != saturating_product(n_rows, n_cols) ==> (r matches Err(e) && invalid_with(
                e,
                "usize matrix view length mismatch: expected "@ + decimal(
                    saturating_product(n_rows, n_cols) as nat,
                ) + ", got "@ + decimal(data.len() as nat),
            )),
    {
        let expected = saturating_mul(n_rows, n_cols);
        if data.len() != expected {
            return Err(
                UmapError::InvalidParameter(
                    expected_got_message(
                        "usize matrix view length mismatch: expected ",
                        expected,
                        data.len(),
                    ),
                ),
            );
        }
        Ok(UsizeMatrixView { data, n_rows, n_cols })
    }
}

/// Shape check of a borrowed dense `n_rows x n_cols` matrix holding
/// `data_len` values: at least one column, and `n_rows * n_cols`
/// (saturating) values.
pub fn check_dense_view_shape(data_len: usize, n_rows: usize, n_cols: usize) -> (r: Result<(), UmapError>)
    ensures
        n_cols == 0 ==> (r matches Err(e) && invalid_with(
            e,
            "dense matrix view must have at least one column"@,
        )),
        n_cols != 0 && data_len != saturating_product(n_rows, n_cols) ==> (r matches Err(e)
            && invalid_with(
            e,
            "dense matrix view length mismatch: expected "@ + decimal(
                saturating_product(n_rows, n_cols) as nat,
            ) + ", got "@ + decimal(data_len as nat),
        )),
        n_cols != 0 && data_len == saturating_product(n_rows, n_cols) ==> r is Ok,
{
    if n_cols == 0 {
        return Err(invalid_parameter("dense matrix view must have at least one column"));
    }
    let expected = saturating_mul(n_rows, n_cols);
    if data_len != expected {
        return Err(
            UmapError::InvalidParameter(
                expected_got_message("dense matrix view length mismatch: expected ", expected, data_len),
            ),
        );
    }
    Ok(())
}

/// Shape check of a borrowed flat `n_rows x n_cols` matrix holding
/// `data_len` values (zero columns allowed).
pub fn check_flat_view_shape(data_len: usize, n_rows: usize, n_cols: usize) -> (r: Result<(), UmapError>)
    ensures
        data_len != saturating_product(n_rows, n_cols) ==> (r matches Err(e) && invalid_with(
            e,
            "flat matrix view length mismatch: expected "@ + decimal(
                saturating_product(n_rows, n_cols) as nat,
            ) + ", got "@ + decimal(data_len as nat),
        )),
        data_len == saturating_product(n_rows, n_cols) ==> r is Ok,
{
    let expected = saturating_mul(n_rows, n_cols);
    if data_len != expected {
        return Err(
            UmapError::InvalidParameter(
                expected_got_message("flat matrix view length mismatch: expected ", expected, data_len),
            ),
        );
    }
    Ok(())
}

/// What the caller found of one precomputed distance (the tests are on
/// floating-point values).
#[derive(Debug, Clone, Copy, PartialEq, Eq, Structural)]
pub struct DistFacts {
    /// The distance is finite and `>= 0`.
    pub valid: bool,
    /// The distance plus the smoothing tolerance is below the previous
    /// distance of its row.
    pub drops: bool,
}

/// What is wrong with a precomputed kNN graph.
#[derive(Debug, Clone, Copy, PartialEq, Eq, Structural)]
pub enum PrecomputedKnnIssue {
    RowCount,
    TooFewColumns,
    RowLengthMismatch,
    IndexOutOfRange { row: usize, col: usize },
    BadDistance { row: usize, col: usize },
    DuplicateIndex { row: usize, idx: usize },
    Decreasing { row: usize, col: usize },
}

/// The problem of the rows' lengths, if any.
pub open spec fn row_shape_issue(idx_len: int, dist_len: int, k: int) -> Option<PrecomputedKnnIssue> {
    if idx_len < k || dist_len < k {
        Some(PrecomputedKnnIssue::TooFewColumns)
    } else if idx_len != dist_len {
        Some(PrecomputedKnnIssue::RowLengthMismatch)
    } else {
        None
    }
}

/// The problem of column `c` of row `row`, if any, given the indices of the
/// row and what the caller found of its distances.
pub open spec fn col_issue(idx_row: Seq<usize>, facts: Seq<DistFacts>, n: int, row: int, c: int) -> Option<
    PrecomputedKnnIssue,
> {
    if idx_row[c] >= n {
        Some(PrecomputedKnnIssue::IndexOutOfRange { row: row as usize, col: c as usize })
    } else if !facts[c].valid {
        Some(PrecomputedKnnIssue::BadDistance { row: row as usize, col: c as usize })
    } else if exists|c2: int| 0 <= c2 < c && idx_row[c2] == idx_row[c] {
        Some(PrecomputedKnnIssue::DuplicateIndex { row: row as usize, idx: idx_row[c] })
    } else if c > 0 && facts[c].drops {
        Some(PrecomputedKnnIssue::Decreasing { row: row as usize, col: c as usize })
    } else {
        None
    }
}

/// Row `row` passes every check, on each of its columns.
pub open spec fn row_clean(idx_row: Seq<usize>, dist_len: int, facts: Seq<DistFacts>, n: int, k: int, row: int) -> bool {
    &&& row_shape_issue(idx_row.len() as int, dist_len, k) is None
    &&& forall|c: int| 0 <= c < idx_row.len() ==> #[trigger] col_issue(idx_row, facts, n, row, c) is None
}

/// `issue` is the first problem of row `row`.
pub open spec fn first_row_issue(
    idx_row: Seq<usize>,
    dist_len: int,
    facts: Seq<DistFacts>,
    n: int,
    k: int,
    row: int,
    issue: PrecomputedKnnIssue,
) -> bool {
    ||| row_shape_issue(idx_row.len() as int, dist_len, k) == Some(issue)
    ||| row_shape_issue(idx_row.len() as int, dist_len, k) is None && exists|c: int|
        0 <= c < idx_row.len() && #[trigger] col_issue(idx_row, facts, n, row, c) == Some(issue)
            && forall|c2: int| 0 <= c2 < c ==> #[trigger] col_issue(idx_row, facts, n, row, c2) is None
}

/// The checks of the first `k` columns of one row, in column order: index in
/// range, distance valid, index not seen before in the row, distance not
/// dropping. `marks` flags no index on entry and on exit.
fn check_knn_row(
    idx_row: &Vec<usize>,
    facts: &Vec<DistFacts>,
    marks: &mut Vec<bool>,
    row: usize,
    k: usize,
) -> (r: Option<PrecomputedKnnIssue>)
    requires
        idx_row.len() >= k,
        facts.len() >= k,
        forall|x: int| 0 <= x < old(marks).len() ==> !#[trigger] old(marks)@[x],
    ensures
        final(marks).len() == old(marks).len(),
        forall|x: int| 0 <= x < final(marks).len() ==> !#[trigger] final(marks)@[x],
        r is None <==> forall|c: int|
            0 <= c < k ==> #[trigger] col_issue(idx_row@, facts@, old(marks).len() as int, row as int, c) is None,
        r matches Some(issue) ==> exists|c: int|
            0 <= c < k && #[trigger] col_issue(idx_row@, facts@, old(marks).len() as int, row as int, c)
                == Some(issue) && forall|c2: int|
                0 <= c2 < c ==> #[trigger] col_issue(
                    idx_row@,
                    facts@,
                    old(marks).len() as int,
                    row as int,
                    c2,
                ) is None,
{
    let n = marks.len();
    let mut result: Option<PrecomputedKnnIssue> = None;
    let mut c: usize = 0;
    while c < k
        invariant_except_break
            result is None,
        invariant
            n == marks.len(),
            idx_row.len() >= k,
            facts.len() >= k,
            c <= k,
            forall|c2: int| 0 <= c2 < c ==> #[trigger] col_issue(idx_row@, facts@, n as int, row as int, c2) is None,
            forall|c2: int| 0 <= c2 < c ==> idx_row@[c2] < n,
            forall|x: int|
                0 <= x < n ==> (#[trigger] marks@[x] <==> exists|c2: int| 0 <= c2 < c && idx_row@[c2] == x),
        ensures
            result is None ==> c == k,
            result is Some ==> c < k && col_issue(idx_row@, facts@, n as int, row as int, c as int) == result,
        decreases k - c,
    {
        let idx = idx_row[c];
        if idx >= n {
            result = Some(PrecomputedKnnIssue::IndexOutOfRange { row, col: c });
            break;
        }
        if !facts[c].valid {
            result = Some(PrecomputedKnnIssue::BadDistance { row, col: c });
            break;
        }
        if marks[idx] {
            proof {
                let c2 = choose|c2: int| 0 <= c2 < c && idx_row@[c2] == idx;
                assert(exists|c3: int| 0 <= c3 < c && idx_row@[c3] == idx_row@[c as int]);
            }
            result = Some(PrecomputedKnnIssue::DuplicateIndex { row, idx });
            break;
        }
        proof {
            assert(!exists|c3: int| 0 <= c3 < c && idx_row@[c3] == idx_row@[c as int]);
        }
        if c > 0 && facts[c].drops {
            result = Some(PrecomputedKnnIssue::Decreasing { row, col: c });
            break;
        }
        marks.set(idx, true);
        proof {
            assert(col_issue(idx_row@, facts@, n as int, row as int, c as int) is None);
            assert forall|x: int| 0 <= x < n implies (#[trigger] marks@[x] <==> exists|c2: int|
                0 <= c2 < c + 1 && idx_row@[c2] == x) by {
                if x == idx {
                    assert(idx_row@[c as int] == x);
                }
            }
        }
        c = c + 1;
    }
    let stop = c;
    let mut t: usize = 0;
    while t < stop
        invariant
            n == marks.len(),
            stop <= k,
            idx_row.len() >= k,
            t <= stop,
            forall|c2: int| 0 <= c2 < stop ==> idx_row@[c2] < n,
            forall|x: int|
                0 <= x < n && #[trigger] marks@[x] ==> exists|c2: int|
                    t <= c2 < stop && idx_row@[c2] == x,
        decreases stop - t,
    {
        let ghost m0 = marks@;
        marks.set(idx_row[t], false);
        proof {
            assert forall|x: int| 0 <= x < n && #[trigger] marks@[x] implies exists|c2: int|
                t + 1 <= c2 < stop && idx_row@[c2] == x by {
                assert(m0[x]);
                let c2 = choose|c2: int| t <= c2 < stop && idx_row@[c2] == x;
                assert(c2 != t);
            }
        }
        t = t + 1;
    }
    result
}

/// Checks a precomputed kNN graph of `n_samples` rows and keeps the first
/// `n_neighbors` columns of each row. `facts[r][c]` holds what the caller
/// found of distance `c` of row `r`, for every column of the row. Rows are
/// checked in order; in a row, first the lengths, then every column, in
/// order, as `col_issue` says; the first problem is reported.
pub fn validate_and_trim_precomputed_knn<D: Copy>(
    knn_indices: &[Vec<usize>],
    knn_dists: &[Vec<D>],
    facts: &[Vec<DistFacts>],
    n_samples: usize,
    n_neighbors: usize,
) -> (r: Result<(Vec<Vec<usize>>, Vec<Vec<D>>), PrecomputedKnnIssue>)
    requires
        facts.len() == knn_dists.len(),
        forall|row: int| 0 <= row < knn_dists.len() ==> (#[trigger] facts[row])@.len() >= knn_dists[row]@.len(),
    ensures
        (knn_indices.len() != n_samples || knn_dists.len() != n_samples) ==> r == Err::<
            (Vec<Vec<usize>>, Vec<Vec<D>>),
            PrecomputedKnnIssue,
        >(PrecomputedKnnIssue::RowCount),
        (knn_indices.len() == n_samples && knn_dists.len() == n_samples) ==> {
            &&& r is Ok <==> forall|row: int|
                0 <= row < n_samples ==> row_clean(
                    #[trigger] knn_indices[row]@,
                    knn_dists[row]@.len() as int,
                    facts[row]@,
                    n_samples as int,
                    n_neighbors as int,
                    row,
                )
            &&& r matches Ok(out) ==> out.0.len() == n_samples && out.1.len() == n_samples && forall|row: int|
                0 <= row < n_samples ==> (#[trigger] out.0[row])@ == knn_indices[row]@.take(
                    n_neighbors as int,
                ) && out.1[row]@ == knn_dists[row]@.take(n_neighbors as int)
            &&& r matches Err(issue) ==> exists|row: int|
                0 <= row < n_samples && (forall|r2: int|
                    0 <= r2 < row ==> row_clean(
                        #[trigger] knn_indices[r2]@,
                        knn_dists[r2]@.len() as int,
                        facts[r2]@,
                        n_samples as int,
                        n_neighbors as int,
                        r2,
                    )) && first_row_issue(
                    #[trigger] knn_indices[row]@,
                    knn_dists[row]@.len() as int,
                    facts[row]@,
                    n_samples as int,
                    n_neighbors as int,
                    row,
                    issue,
                )
        },
{
    if knn_indices.len() != n_samples || knn_dists.len() != n_samples {
        return Err(PrecomputedKnnIssue::RowCount);
    }
    let k = n_neighbors;
    let mut marks: Vec<bool> = Vec::new();
    while marks.len() < n_samples
        invariant
            marks.len() <= n_samples,
            forall|x: int| 0 <= x < marks.len() ==> !#[trigger] marks@[x],
        decreases n_samples - marks.len(),
    {
        marks.push(false);
    }
    let mut idx_trimmed: Vec<Vec<usize>> = Vec::new();
    let mut dist_trimmed: Vec<Vec<D>> = Vec::new();
    let mut row: usize = 0;
    while row < n_samples
        invariant
            knn_indices.len() == n_samples,
            knn_dists.len() == n_samples,
            facts.len() == n_samples,
            forall|r2: int| 0 <= r2 < knn_dists.len() ==> (#[trigger] facts[r2])@.len() >= knn_dists[r2]@.len(),
            k == n_neighbors,
            row <= n_samples,
            marks.len() == n_samples,
            forall|x: int| 0 <= x < marks.len() ==> !#[trigger] marks@[x],
            idx_trimmed.len() == row,
            dist_trimmed.len() == row,
            forall|r2: int|
                0 <= r2 < row ==> row_clean(
                    #[trigger] knn_indices[r2]@,
                    knn_dists[r2]@.len() as int,
                    facts[r2]@,
                    n_samples as int,
                    k as int,
                    r2,
                ),
            forall|r2: int|
                0 <= r2 < row ==> (#[trigger] idx_trimmed[r2])@ == knn_indices[r2]@.take(k as int)
                    && dist_trimmed[r2]@ == knn_dists[r2]@.take(k as int),
        decreases n_samples - row,
    {
        let idx_row = &knn_indices[row];
        let dist_row = &knn_dists[row];
        if idx_row.len() < k || dist_row.len() < k {
            return Err(PrecomputedKnnIssue::TooFewColumns);
        }
        if idx_row.len() != dist_row.len() {
            return Err(PrecomputedKnnIssue::RowLengthMismatch);
        }
        match check_knn_row(idx_row, &facts[row], &mut marks, row, idx_row.len()) {
            Some(issue) => {
                return Err(issue);
            },
            None => {},
        }
        let mut idx_out: Vec<usize> = Vec::new();
        let mut dist_out: Vec<D> = Vec::new();
        let mut c: usize = 0;
        while c < k
            invariant
                c <= k,
                idx_row.len() >= k,
                dist_row.len() >= k,
                idx_out@ == idx_row@.take(c as int),
                dist_out@ == dist_row@.take(c as int),
            decreases k - c,
        {
            idx_out.push(idx_row[c]);
            dist_out.push(dist_row[c]);
            proof {
                assert(idx_out@ =~= idx_row@.take(c + 1));
                assert(dist_out@ =~= dist_row@.take(c + 1));
            }
            c = c + 1;
        }
        idx_trimmed.push(idx_out);
        dist_trimmed.push(dist_out);
        row = row + 1;
    }
    Ok((idx_trimmed, dist_trimmed))
}

/// The message of a precomputed-kNN problem; `dist_text` and `prev_text`
/// are the printed forms of the two distances of a `Decreasing` problem.
pub open spec fn knn_issue_text(issue: PrecomputedKnnIssue, dist_text: Seq<char>, prev_text: Seq<char>) -> Seq<char> {
    match issue {
        PrecomputedKnnIssue::RowCount => "precomputed knn row count must match number of samples"@,
        PrecomputedKnnIssue::TooFewColumns => "precomputed knn columns must be >= n_neighbors"@,
        PrecomputedKnnIssue::RowLengthMismatch => "precomputed knn index/dist row lengths must match"@,
        PrecomputedKnnIssue::IndexOutOfRange { row, col } => "precomputed knn index out of range at row "@
            + decimal(row as nat) + ", col "@ + decimal(col as nat),
        PrecomputedKnnIssue::BadDistance { row, col } => "precomputed knn distance must be finite and >= 0 at row "@
            + decimal(row as nat) + ", col "@ + decimal(col as nat),
        PrecomputedKnnIssue::DuplicateIndex { row, idx } => "precomputed knn row "@ + decimal(row as nat)
            + " contains duplicate index "@ + decimal(idx as nat),
        PrecomputedKnnIssue::Decreasing { row, col } => "precomputed knn distances must be non-decreasing within each row; row "@
            + decimal(row as nat) + " has dist["@ + decimal(col as nat) + "]="@ + dist_text + " < dist["@
            + decimal((col - 1) as nat) + "]="@ + prev_text,
    }
}

/// The error reported for a precomputed-kNN problem.
pub fn precomputed_knn_error(issue: PrecomputedKnnIssue, dist_text: &str, prev_text: &str) -> (e: UmapError)
    requires
        issue matches PrecomputedKnnIssue::Decreasing { col, .. } ==> col > 0,
    ensures
        invalid_with(e, knn_issue_text(issue, dist_text@, prev_text@)),
{
    let m = match issue {
        PrecomputedKnnIssue::RowCount => string_of("precomputed knn row count must match number of samples"),
        PrecomputedKnnIssue::TooFewColumns => string_of("precomputed knn columns must be >= n_neighbors"),
        PrecomputedKnnIssue::RowLengthMismatch => string_of(
            "precomputed knn index/dist row lengths must match",
        ),
        PrecomputedKnnIssue::IndexOutOfRange { row, col } => {
            let mut m = string_of("precomputed knn index out of range at row ");
            push_decimal(&mut m, row);
            string_append(&mut m, ", col ");
            push_decimal(&mut m, col);
            m
        },
        PrecomputedKnnIssue::BadDistance { row, col } => {
            let mut m = string_of("precomputed knn distance must be finite and >= 0 at row ");
            push_decimal(&mut m, row);
            string_append(&mut m, ", col ");
            push_decimal(&mut m, col);
            m
        },
        PrecomputedKnnIssue::DuplicateIndex { row, idx } => {
            let mut m = string_of("precomputed knn row ");
            push_decimal(&mut m, row);
            string_append(&mut m, " contains duplicate index ");
            push_decimal(&mut m, idx);
            m
        },
        PrecomputedKnnIssue::Decreasing { row, col } => {
            let mut m = string_of(
                "precomputed knn distances must be non-decreasing within each row; row ",
            );
            push_decimal(&mut m, row);
            string_append(&mut m, " has dist[");
            push_decimal(&mut m, col);
            string_append(&mut m, "]=");
            string_append(&mut m, dist_text);
            string_append(&mut m, " < dist[");
            push_decimal(&mut m, col - 1);
            string_append(&mut m, "]=");
            string_append(&mut m, prev_text);
            m
        },
    };
    UmapError::InvalidParameter(m)
}

/// What the caller found of one distance of a flat distance array.
#[derive(Debug, Clone, Copy, PartialEq, Eq, Structural)]
pub enum DistValue {
    /// Finite and `>= 0`.
    Usable,
    /// Infinite or NaN.
    NonFinite,
    /// Finite and `< 0`.
    Negative,
}

/// Checks a flat distance array, value by value: the first non-finite or
/// negative value decides the error.
pub fn validate_precomputed_distance_values_flat(knn_dists: &[DistValue]) -> (r: Result<(), UmapError>)
    ensures
        r is Ok <==> forall|t: int| 0 <= t < knn_dists.len() ==> #[trigger] knn_dists[t] == DistValue::Usable,
        r matches Err(e) ==> exists|t: int|
            0 <= t < knn_dists.len() && #[trigger] knn_dists[t] != DistValue::Usable && (forall|u: int|
                0 <= u < t ==> #[trigger] knn_dists[u] == DistValue::Usable) && invalid_with(
                e,
                if knn_dists[t] == DistValue::NonFinite {
                    "knn_dists must contain only finite values"@
                } else {
                    "knn_dists must be non-negative"@
                },
            ),
{
    let mut t: usize = 0;
    while t < knn_dists.len()
        invariant
            t <= knn_dists.len(),
            forall|u: int| 0 <= u < t ==> #[trigger] knn_dists[u] == DistValue::Usable,
        decreases knn_dists.len() - t,
    {
        match knn_dists[t] {
            DistValue::NonFinite => {
                return Err(invalid_parameter("knn_dists must contain only finite values"));
            },
            DistValue::Negative => {
                return Err(invalid_parameter("knn_dists must be non-negative"));
            },
            DistValue::Usable => {},
        }
        t = t + 1;
    }
    Ok(())
}

/// Whether every row lists its own point first at a (near) zero distance:
/// as many index rows as distance rows, and each row `r` non-empty in both,
/// with index `r` first and `first_dist_small[r]` (its first distance is
/// within the smoothing tolerance of zero).
pub fn knn_rows_include_self<D>(knn_indices: &[Vec<usize>], knn_dists: &[Vec<D>], first_dist_small: &[bool]) -> (b: bool)
    requires
        first_dist_small.len() == knn_dists.len(),
    ensures
        b == (knn_indices.len() == knn_dists.len() && forall|row: int|
            0 <= row < knn_indices.len() ==> (#[trigger] knn_indices[row])@.len() > 0
                && knn_dists[row]@.len() > 0 && knn_indices[row]@[0] == row
                && first_dist_small[row]),
{
    if knn_indices.len() != knn_dists.len() {
        return false;
    }
    let mut row: usize = 0;
    while row < knn_indices.len()
        invariant
            knn_indices.len() == knn_dists.len(),
            first_dist_small.len() == knn_dists.len(),
            row <= knn_indices.len(),
            forall|r2: int|
                0 <= r2 < row ==> (#[trigger] knn_indices[r2])@.len() > 0 && knn_dists[r2]@.len() > 0
                    && knn_indices[r2]@[0] == r2 && first_dist_small[r2],
        decreases knn_indices.len() - row,
    {
        if knn_indices[row].len() == 0 || knn_dists[row].len() == 0 || knn_indices[row][0] != row
            || !first_dist_small[row] {
            return false;
        }
        row = row + 1;
    }
    true
}

/// Row `t` of the query has `expected` values, all finite.
pub open spec fn query_row_ok<T>(query: Seq<Vec<T>>, row_finite: Seq<bool>, expected: usize, t: int) -> bool {
    query[t]@.len() == expected && row_finite[t]
}

/// The error reported for query row `row`, the first that fails
/// `query_row_ok`; a first row of the wrong width gives `first_row_error`.
pub open spec fn query_row_error<T>(query: Seq<Vec<T>>, expected: usize, row: int, first_row_error: UmapError, e: UmapError) -> bool {
    if query[row]@.len() != expected {
        if row == 0 {
            e == first_row_error
        } else {
            e == UmapError::InconsistentDimensions {
                row: row as usize,
                expected,
                got: query[row]@.len() as usize,
            }
        }
    } else {
        invalid_with(e, "input contains non-finite value at row "@ + decimal(row as nat))
    }
}

/// Checks query rows row by row: each must have `expected` values (a first
/// row that does not is reported as `first_row_error`, a later one as an
/// inconsistent row) and, by `row_finite`, only finite values.
fn validate_query_rows<T>(query: &[Vec<T>], expected: usize, row_finite: &[bool], first_row_error: UmapError) -> (r: Result<(), UmapError>)
    requires
        row_finite.len() == query.len(),
    ensures
        r is Ok <==> forall|t: int|
            0 <= t < query.len() ==> #[trigger] query_row_ok(query@, row_finite@, expected, t),
        r matches Err(e) ==> exists|row: int|
            0 <= row < query.len() && !#[trigger] query_row_ok(query@, row_finite@, expected, row)
                && (forall|t: int|
                0 <= t < row ==> #[trigger] query_row_ok(query@, row_finite@, expected, t))
                && query_row_error(query@, expected, row, first_row_error, e),
{
    let mut row: usize = 0;
    while row < query.len()
        invariant
            row_finite.len() == query.len(),
            row <= query.len(),
            forall|t: int| 0 <= t < row ==> #[trigger] query_row_ok(query@, row_finite@, expected, t),
        decreases query.len() - row,
    {
        if query[row].len() != expected {
            proof {
                assert(!query_row_ok(query@, row_finite@, expected, row as int));
            }
            if row == 0 {
                return Err(first_row_error);
            }
            return Err(UmapError::InconsistentDimensions { row, expected, got: query[row].len() });
        }
        if !row_finite[row] {
            proof {
                assert(!query_row_ok(query@, row_finite@, expected, row as int));
            }
            let mut m = string_of("input contains non-finite value at row ");
            push_decimal(&mut m, row);
            return Err(UmapError::InvalidParameter(m));
        }
        assert(query_row_ok(query@, row_finite@, expected, row as int));
        row = row + 1;
    }
    Ok(())
}

/// Checks the rows given to `transform`: `n_features` values each (a first
/// row that differs is a feature mismatch), all finite.
pub fn validate_transform_query<T>(query: &[Vec<T>], n_features: usize, row_finite: &[bool]) -> (r: Result<(), UmapError>)
    requires
        row_finite.len() == query.len(),
    ensures
        r is Ok <==> forall|t: int|
            0 <= t < query.len() ==> #[trigger] query_row_ok(query@, row_finite@, n_features, t),
        r matches Err(e) ==> exists|row: int|
            0 <= row < query.len() && !#[trigger] query_row_ok(query@, row_finite@, n_features, row)
                && (forall|t: int|
                0 <= t < row ==> #[trigger] query_row_ok(query@, row_finite@, n_features, t))
                && query_row_error(
                query@,
                n_features,
                row,
                UmapError::FeatureMismatch { expected: n_features, got: query[0]@.len() as usize },
                e,
            ),
{
    let got = if query.len() > 0 { query[0].len() } else { 0 };
    validate_query_rows(query, n_features, row_finite, UmapError::FeatureMismatch { expected: n_features, got })
}

/// Checks the embedded points given to `inverse_transform`: `n_components`
/// values each (a first row that differs is an embedding dimension
/// mismatch), all finite.
pub fn validate_inverse_query<T>(query: &[Vec<T>], n_components: usize, row_finite: &[bool]) -> (r: Result<(), UmapError>)
    requires
        row_finite.len() == query.len(),
    ensures
        r is Ok <==> forall|t: int|
            0 <= t < query.len() ==> #[trigger] query_row_ok(query@, row_finite@, n_components, t),
        r matches Err(e) ==> exists|row: int|
            0 <= row < query.len() && !#[trigger] query_row_ok(query@, row_finite@, n_components, row)
                && (forall|t: int|
                0 <= t < row ==> #[trigger] query_row_ok(query@, row_finite@, n_components, t))
                && query_row_error(
                query@,
                n_components,
                row,
                UmapError::EmbeddingDimensionMismatch {
                    expected: n_components,
                    got: query[0]@.len() as usize,
                },
                e,
            ),
{
    let got = if query.len() > 0 { query[0].len() } else { 0 };
    validate_query_rows(
        query,
        n_components,
        row_finite,
        UmapError::EmbeddingDimensionMismatch { expected: n_components, got },
    )
}

/// A row accepted by `validate_and_trim_precomputed_knn` keeps `k` distinct
/// neighbour indices, all below the number of samples, with valid
/// distances.
pub proof fn law_accepted_knn_row_distinct_in_range(
    idx_row: Seq<usize>,
    dist_len: int,
    facts: Seq<DistFacts>,
    n: int,
    k: int,
    row: int,
)
    requires
        row_clean(idx_row, dist_len, facts, n, k, row),
    ensures
        idx_row.len() >= k,
        dist_len >= k,
        forall|c: int| 0 <= c < k ==> #[trigger] idx_row[c] < n && facts[c].valid,
        forall|c1: int, c2: int| 0 <= c1 < c2 < k ==> #[trigger] idx_row[c1] != #[trigger] idx_row[c2],
{
    assert forall|c: int| 0 <= c < k implies #[trigger] idx_row[c] < n && facts[c].valid by {
        assert(col_issue(idx_row, facts, n, row, c) is None);
    }
    assert forall|c1: int, c2: int| 0 <= c1 < c2 < k implies #[trigger] idx_row[c1]
        != #[trigger] idx_row[c2] by {
        assert(col_issue(idx_row, facts, n, row, c2) is None);
    }
}

} // verus!
