use rust_umap::aligned::{
    alignment_epoch_count, build_identity_relations, check_relation_count, derive_slice_seed,
    prepare_relations, two_vectors_mut, validate_aligned_params, validate_datasets, AlignmentRelation,
};
use rust_umap::rows::two_rows_mut;
use rust_umap::types::{AlignedUmapError, UmapError};

fn slices(shapes: &[(usize, usize)]) -> Vec<Vec<Vec<f32>>> {
    shapes
        .iter()
        .map(|&(n, d)| vec![vec![0.0f32; d]; n])
        .collect()
}

#[test]
fn relation_new_sorts_and_dedups() {
    let r = AlignmentRelation::new(vec![(2, 1), (0, 0), (2, 1), (1, 3)]);
    assert_eq!(r.pairs(), &[(0, 0), (1, 3), (2, 1)]);
    assert_eq!(r.len(), 3);
    assert!(!r.is_empty());
    let again = AlignmentRelation::new(r.pairs().to_vec());
    assert_eq!(again.pairs(), r.pairs());
    let other_order = AlignmentRelation::new(vec![(1, 3), (0, 0), (2, 1), (0, 0)]);
    assert_eq!(other_order.pairs(), r.pairs());
}

#[test]
fn relation_identity_and_forward_map() {
    let id = AlignmentRelation::identity(3);
    assert_eq!(id.pairs(), &[(0, 0), (1, 1), (2, 2)]);
    assert!(AlignmentRelation::identity(0).is_empty());
    let fwd = AlignmentRelation::from_forward_map(&[Some(4), None, Some(0), Some(4)]);
    assert_eq!(fwd.pairs(), &[(0, 4), (2, 0), (3, 4)]);
}

#[test]
fn slice_seeds_follow_splitmix() {
    assert_eq!(derive_slice_seed(0, 0), 0);
    assert_eq!(derive_slice_seed(0, 1), 0xE220_A839_7B1D_CDAF);
    assert_ne!(derive_slice_seed(42, 1), derive_slice_seed(42, 2));
}

#[test]
fn aligned_params_are_checked_in_order() {
    assert!(validate_aligned_params(true, true, None, 5).is_ok());
    let message = |r: Result<(), AlignedUmapError>| r.unwrap_err().message();
    assert_eq!(
        message(validate_aligned_params(false, false, Some(0), 0)),
        "invalid parameter: alignment_regularization must be finite and >= 0"
    );
    assert_eq!(
        message(validate_aligned_params(true, false, None, 5)),
        "invalid parameter: alignment_learning_rate must be finite and > 0"
    );
    assert_eq!(
        message(validate_aligned_params(true, true, Some(0), 5)),
        "invalid parameter: alignment_epochs must be >= 1 when provided"
    );
    assert_eq!(
        message(validate_aligned_params(true, true, Some(3), 0)),
        "invalid parameter: recenter_interval must be >= 1"
    );
}

#[test]
fn datasets_are_checked() {
    assert_eq!(validate_datasets::<f32>(&[]).unwrap_err(), AlignedUmapError::EmptyDatasets);
    assert_eq!(
        validate_datasets(&slices(&[(3, 2)])).unwrap_err(),
        AlignedUmapError::NeedAtLeastTwoDatasets
    );
    assert_eq!(
        validate_datasets(&slices(&[(3, 2), (0, 2)])).unwrap_err(),
        AlignedUmapError::EmptySlice { slice: 1 }
    );
    let mut data = slices(&[(3, 2), (4, 2)]);
    data[1][2].push(1.0);
    assert_eq!(
        validate_datasets(&data).unwrap_err(),
        AlignedUmapError::FeatureMismatch { slice: 1, expected: 2, got: 3 }
    );
    assert!(validate_datasets(&slices(&[(3, 2), (4, 2)])).is_ok());
}

#[test]
fn identity_relations_need_equal_sizes() {
    let rels = build_identity_relations(&slices(&[(2, 1), (2, 1), (2, 1)])).unwrap();
    assert_eq!(rels.len(), 2);
    assert_eq!(rels[1].pairs(), &[(0, 0), (1, 1)]);
    let err = build_identity_relations(&slices(&[(2, 1), (2, 1), (3, 1)])).unwrap_err();
    assert_eq!(
        err,
        AlignedUmapError::DatasetSampleMismatch { left_slice: 1, right_slice: 2, left_samples: 2, right_samples: 3 }
    );
    assert_eq!(
        err.message(),
        "identity alignment requires equal sample counts; slices 1 and 2 have 2 and 3 samples"
    );
}

#[test]
fn relation_count_must_match() {
    assert!(check_relation_count(3, 2).is_ok());
    let err = check_relation_count(3, 1).unwrap_err();
    assert_eq!(err, AlignedUmapError::RelationCountMismatch { expected: 2, got: 1 });
    assert_eq!(
        err.message(),
        "relation count mismatch: expected 2 relations for adjacent slices, got 1"
    );
}

#[test]
fn relations_are_prepared_with_degrees() {
    let data = slices(&[(3, 1), (2, 1), (2, 1)]);
    let rels = vec![
        AlignmentRelation::new(vec![(0, 1), (2, 1), (1, 0)]),
        AlignmentRelation::new(vec![]),
    ];
    let prepared = prepare_relations(&data, &rels).unwrap();
    assert_eq!(prepared.len(), 1);
    assert_eq!(prepared[0].left_slice, 0);
    assert_eq!(prepared[0].right_slice, 1);
    assert_eq!(prepared[0].pairs, vec![(0, 1), (1, 0), (2, 1)]);
    assert_eq!(prepared[0].left_degree, vec![1, 1, 1]);
    assert_eq!(prepared[0].right_degree, vec![1, 2]);

    let bad = vec![AlignmentRelation::new(vec![(0, 0)]), AlignmentRelation::new(vec![(0, 1), (1, 5)])];
    let err = prepare_relations(&data, &bad).unwrap_err();
    assert_eq!(
        err,
        AlignedUmapError::RelationIndexOutOfRange { relation: 1, left_idx: 1, right_idx: 5, left_len: 2, right_len: 2 }
    );
    assert_eq!(err.message(), "relation 1 pair (1, 5) out of range (left_len=2, right_len=2)");
}

#[test]
fn alignment_epochs_follow_the_settings() {
    let embeddings = vec![vec![vec![0.0f32; 2]; 6000], vec![vec![0.0f32; 2]; 6000]];
    assert_eq!(alignment_epoch_count(Some(7), Some(100), &embeddings), 7);
    assert_eq!(alignment_epoch_count(None, Some(100), &embeddings), 50);
    assert_eq!(alignment_epoch_count(None, Some(1), &embeddings), 1);
    assert_eq!(alignment_epoch_count(None, None, &embeddings), 60);
    assert_eq!(alignment_epoch_count(None, None, &embeddings[..1]), 120);
}

#[test]
fn two_buffers_can_be_borrowed_at_once() {
    let mut buffers = vec![vec![1, 2], vec![3], vec![4, 5, 6]];
    {
        let (a, b) = two_vectors_mut(&mut buffers, 2, 0);
        a.push(7);
        b[0] = 10;
    }
    assert_eq!(buffers, vec![vec![10, 2], vec![3], vec![4, 5, 6, 7]]);
    {
        let (a, b) = two_rows_mut(&mut buffers, 0, 1);
        std::mem::swap(a, b);
    }
    assert_eq!(buffers, vec![vec![3], vec![10, 2], vec![4, 5, 6, 7]]);
}

#[test]
fn aligned_error_messages() {
    assert_eq!(AlignedUmapError::EmptySlice { slice: 4 }.message(), "slice 4 is empty");
    assert_eq!(
        AlignedUmapError::FeatureMismatch { slice: 1, expected: 3, got: 2 }.message(),
        "slice 1 feature mismatch: expected 3, got 2"
    );
    let wrapped = AlignedUmapError::from(UmapError::NotFitted);
    assert_eq!(wrapped.message(), "underlying umap error: model is not fitted yet");
    assert_eq!(wrapped.source(), Some(&UmapError::NotFitted));
    assert_eq!(AlignedUmapError::EmptyDatasets.source(), None);
}
