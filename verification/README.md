# rust_umap

UMAP (Uniform Manifold Approximation and Projection) with its index, shape,
parsing and graph logic verified by Verus.

- `src/` is the verified library: command-line and option parsing, CSV
  tokenising, CSR structure checks, validation of precomputed k-nearest-
  neighbour graphs, exact and approximate (neighbour-descent) k-nearest-
  neighbour selection over order keys, connected components, alignment
  relations of aligned UMAP, and the parameter and data checks of the models.
  Distances enter the library as `u32` order keys, so every selection it
  makes is stated exactly.
- `app/` holds the floating-point side (distances, fuzzy graph, spectral
  initialisation, layout optimisation, the parametric network), file I/O and
  the `bench_fit_csv` command; it calls the library for every decision the
  library states.
- `tests/` runs the library on concrete inputs.
