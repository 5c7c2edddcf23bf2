# iqdb-ivf

An inverted-file (IVF) approximate nearest-neighbour index for the iQDB
family, with its decisions specified and proved in Verus.

The index partitions vectors into `n_clusters` inverted lists around k-means
centroids and answers a query by scanning the `n_probes` lists whose
centroids are nearest. Two variants share one surface: IVF-Flat scores
stored vectors exactly; IVF-PQ scores product-quantization codes and can
exact-rerank a shortlist.

## Layout

- `src/` — the verified library. Vector components and distances enter it as
  `f32` bit patterns (`u32`); every ordering decision is taken on those bit
  patterns.
  - `config.rs` — `IvfConfig`, its builders and validation.
  - `index.rs` — `IvfIndex`: the inverted lists, the identifier directory, and
    the contracts of construction, insert, delete, training, retraining,
    cluster statistics and probe suggestions.
  - `search.rs` — the steps of a query: checks, probe selection, candidate
    collection under a metadata filter, ranking, and the IVF-PQ refine step,
    with the laws that tie them together (exhaustive search with every list
    probed, ranking independent of candidate order, filtered hits).
  - `retrain.rs` — the working set of a retrain, in insertion-sequence order.
  - `topk.rs`, `assign.rs`, `probes.rs`, `float_bits.rs` — top-`k` selection,
    nearest-centroid and farthest-point scans, probe-count arithmetic, and the
    IEEE-754 orders on bit patterns.
  - `rng.rs`, `train.rs` — the SplitMix64 generator, deterministic
    subsampling, and the training pre-checks.
  - `filter.rs`, `quantize.rs`, `id.rs`, `metric.rs`, `error.rs`, `stats.rs` —
    the values the index carries.
- `app/` — the `iqdb_index::Index` / `IndexCore` implementation around the
  library: k-means, distance computation with `iqdb-distance`, product
  quantization with `iqdb-quantize`, and cluster statistics in floating
  point.
- `tests/` — behaviour on concrete inputs, including comparisons with the exact
  `iqdb-flat` index.
