use rust_umap::graph::{connected_components_from_edges, remap_component_edges};
use rust_umap::sorting::{sort_dedup_indices, sort_dedup_pairs};

#[test]
fn components_are_sorted_and_cover_every_point() {
    let edges = vec![(0, 3), (4, 5), (3, 1), (6, 6)];
    let comps = connected_components_from_edges(7, &edges);
    assert_eq!(comps, vec![vec![0, 1, 3], vec![2], vec![4, 5], vec![6]]);
}

#[test]
fn components_of_a_graph_without_edges_are_singletons() {
    let comps = connected_components_from_edges(3, &[]);
    assert_eq!(comps, vec![vec![0], vec![1], vec![2]]);
    assert_eq!(connected_components_from_edges(0, &[]), Vec::<Vec<usize>>::new());
}

#[test]
fn a_chain_forms_one_component() {
    let edges: Vec<(usize, usize)> = (0..9).map(|i| (i + 1, i)).collect();
    let comps = connected_components_from_edges(10, &edges);
    assert_eq!(comps, vec![(0..10).collect::<Vec<usize>>()]);
}

#[test]
fn remapped_edges_keep_only_the_component() {
    let labels = vec![0, 1, 0, 1, 0];
    let component = vec![0, 2, 4];
    let edges = vec![(0, 2, 0.5f32), (1, 3, 0.25), (4, 0, 1.0), (2, 3, 0.75)];
    let out = remap_component_edges(&component, &labels, 0, &edges);
    assert_eq!(out, vec![(0, 1, 0.5), (2, 0, 1.0)]);
    let out = remap_component_edges(&[1, 3], &labels, 1, &edges);
    assert_eq!(out, vec![(0, 1, 0.25)]);
}

#[test]
fn pairs_are_sorted_and_deduplicated() {
    assert_eq!(
        sort_dedup_pairs(&[(3, 1), (0, 2), (3, 1), (0, 1)]),
        vec![(0, 1), (0, 2), (3, 1)]
    );
    assert_eq!(sort_dedup_indices(&[5, 1, 5, 0, 3, 1]), vec![0, 1, 3, 5]);
}
