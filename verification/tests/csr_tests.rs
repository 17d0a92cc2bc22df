use rust_umap::csr::{csr_scan_would_overrun, validate_csr_structure};
use rust_umap::types::UmapError;

fn check(n_rows: usize, n_cols: usize, indptr: &[usize], indices: &[usize], data_len: usize, finite: bool) -> Result<(), String> {
    assert!(!csr_scan_would_overrun(n_rows, n_cols, indptr, indices, data_len));
    validate_csr_structure(n_rows, n_cols, indptr, indices, data_len, finite).map_err(|e| match e {
        UmapError::InvalidParameter(m) => m,
        other => panic!("unexpected error {:?}", other),
    })
}

#[test]
fn well_formed_csr_is_accepted() {
    assert!(check(3, 4, &[0, 2, 2, 3], &[0, 3, 1], 3, true).is_ok());
}

#[test]
fn csr_problems_are_reported_in_order() {
    assert_eq!(check(1, 0, &[0, 0], &[], 0, true).unwrap_err(), "csr n_cols must be >= 1");
    assert_eq!(
        check(2, 3, &[0, 1], &[0], 1, true).unwrap_err(),
        "csr indptr length must be n_rows + 1 (got 2, expected 3)"
    );
    assert_eq!(check(1, 3, &[1, 1], &[0], 1, true).unwrap_err(), "csr indptr must start from 0");
    assert_eq!(check(1, 3, &[0, 1], &[0], 2, true).unwrap_err(), "csr indices/data lengths must match");
    assert_eq!(
        check(1, 3, &[0, 2], &[0], 1, true).unwrap_err(),
        "csr indptr last value (2) must equal nnz (1)"
    );
    assert_eq!(
        check(3, 3, &[0, 2, 1, 2], &[0, 1], 2, true).unwrap_err(),
        "csr indptr must be non-decreasing, got indptr[1]=2 > indptr[2]=1"
    );
    assert_eq!(
        check(1, 9, &[0, 3], &[4, 2, 20], 3, true).unwrap_err(),
        "csr row 0 indices must be strictly increasing"
    );
    assert_eq!(
        check(2, 5, &[0, 1, 3], &[0, 6, 7], 3, true).unwrap_err(),
        "csr row 1 has column index 6 out of bounds for n_cols=5"
    );
    assert_eq!(check(1, 3, &[0, 1], &[0], 1, false).unwrap_err(), "csr data must be finite");
}

#[test]
fn overrunning_row_pointers_are_detected() {
    assert!(csr_scan_would_overrun(2, 3, &[0, 5, 3], &[0, 1, 2], 3));
    assert!(!csr_scan_would_overrun(2, 3, &[0, 2, 3], &[0, 1, 2], 3));
}
