//! Index-level behaviour, driven the way a caller drives the library: the
//! caller computes distances in floating point (squared L2 to centroids for
//! placement, metric distances with `iqdb_distance` for ranking) and hands
//! the bit patterns to the index. Training picks centroids from the
//! planned working set instead of running k-means, which none of these
//! tests depends on.

use std::collections::HashSet;
use std::sync::Arc;

use iqdb_distance::compute_batch;
use iqdb_filter::MAX_FILTER_DEPTH;
use iqdb_flat::{FlatConfig, FlatIndex};
use iqdb_index::{Index, IndexCore};
use iqdb_ivf::error::IvfError;
use iqdb_ivf::id::ItemId;
use iqdb_ivf::index::IvfIndex;
use iqdb_ivf::search::{IvfHit, PqStep, SearchStart};
use iqdb_ivf::{IvfConfig, Metric};
use iqdb_quantize::{ProductQuantizer, Quantizer};
use iqdb_types::{DistanceMetric, Filter, Metadata, SearchParams, Value, VectorId};

type Ix = IvfIndex<Vec<f32>>;

fn dm(m: Metric) -> DistanceMetric {
    match m {
        Metric::Cosine => DistanceMetric::Cosine,
        Metric::DotProduct => DistanceMetric::DotProduct,
        Metric::Euclidean => DistanceMetric::Euclidean,
        Metric::Manhattan => DistanceMetric::Manhattan,
        Metric::Hamming => DistanceMetric::Hamming,
    }
}

fn squared_l2(a: &[f32], b: &[f32]) -> f32 {
    let mut sum: f32 = 0.0;
    for i in 0..a.len() {
        let d = a[i] - b[i];
        sum += d * d;
    }
    sum
}

fn raw(metric: Metric, q: &[f32], vs: &[&[f32]]) -> Vec<u32> {
    let mut out = vec![0.0_f32; vs.len()];
    compute_batch(dm(metric), q, vs, &mut out).unwrap();
    out.iter().map(|d| d.to_bits()).collect()
}

/// The quantizer the index asks for, trained on `sample`.
fn trained_quantizer(ix: &Ix, sample: &[Vec<f32>]) -> Option<ProductQuantizer> {
    ix.new_quantizer().map(|mut q| {
        let refs: Vec<&[f32]> = sample.iter().map(|v| v.as_slice()).collect();
        q.train(&refs).unwrap();
        q
    })
}

/// Train with the first `n_clusters` vectors of the planned working set as
/// centroids (and the quantizer trained on the sample, when the index
/// quantizes).
fn train(ix: &mut Ix, sample: &[Vec<f32>]) -> Result<(), IvfError> {
    let lens: Vec<usize> = sample.iter().map(|v| v.len()).collect();
    let (working, _rng) = ix.begin_training(&lens)?;
    let n = ix.config().n_clusters;
    let centroids: Vec<Vec<f32>> = working[..n].iter().map(|&i| sample[i].clone()).collect();
    let pq = trained_quantizer(ix, sample);
    ix.finish_training(centroids, pq);
    Ok(())
}

/// Train with the given centroids.
fn train_with(ix: &mut Ix, sample: &[Vec<f32>], centroids: Vec<Vec<f32>>) -> Result<(), IvfError> {
    let lens: Vec<usize> = sample.iter().map(|v| v.len()).collect();
    ix.begin_training(&lens)?;
    ix.finish_training(centroids, None);
    Ok(())
}

fn insert(ix: &mut Ix, id: u64, v: &[f32], meta: Option<Metadata>) -> Result<(), IvfError> {
    let sq: Vec<u32> = if ix.is_trained() && v.len() == ix.dim() {
        ix.centroids().iter().map(|c| squared_l2(c, v).to_bits()).collect()
    } else {
        Vec::new()
    };
    let code = match ix.quantizer() {
        Some(q) if v.len() == ix.dim() => Ok(Some(q.quantize(v).unwrap())),
        Some(_) => Err(IvfError::InvalidVector),
        None => Ok(None),
    };
    ix.insert(ItemId::U64(id), v.to_vec(), v.len(), meta, &sq, code)
}

fn search(ix: &Ix, q: &[f32], k: usize, filter: Option<&Filter>) -> Result<Vec<IvfHit>, IvfError> {
    match ix.search_gate(q.len(), k, ix.metric(), filter)? {
        SearchStart::Done => Ok(Vec::new()),
        SearchStart::Scan(ev) => {
            let cents: Vec<&[f32]> = ix.centroids().iter().map(|c| c.as_slice()).collect();
            let probed = ix.select_probes(&raw(ix.metric(), q, &cents));
            let addrs = ix.probe_candidates(&probed, ev.as_ref());
            let exact = |addrs: &[(usize, usize)]| -> Vec<IvfHit> {
                let vecs: Vec<&[f32]> = addrs.iter().map(|&(c, p)| ix.entry(c, p).vector.as_slice()).collect();
                ix.rank_hits(addrs, &raw(ix.metric(), q, &vecs), k)
            };
            match ix.quantizer() {
                None => Ok(exact(&addrs)),
                Some(pq) => {
                    let tables = pq.build_query_tables(q, dm(ix.metric())).unwrap();
                    let adc: Vec<u32> = addrs
                        .iter()
                        .map(|&(c, p)| tables.distance(ix.entry(c, p).pq_code.as_ref().unwrap()).unwrap().to_bits())
                        .collect();
                    match ix.pq_step(&addrs, &adc, k) {
                        PqStep::Hits(h) => Ok(h),
                        PqStep::Rerank(short) => Ok(exact(&short)),
                    }
                }
            }
        }
    }
}

fn delete(ix: &mut Ix, id: u64) -> Result<(), IvfError> {
    ix.delete(&ItemId::U64(id))
}

fn hit_id(h: &IvfHit) -> u64 {
    match h.id {
        ItemId::U64(n) => n,
        ItemId::Bytes(_) => panic!("unexpected byte id"),
    }
}

fn ids(hits: &[IvfHit]) -> Vec<u64> {
    hits.iter().map(hit_id).collect()
}

fn flat_ids(flat: &FlatIndex, q: &[f32], params: &SearchParams) -> Vec<u64> {
    flat.search(q, params)
        .unwrap()
        .into_iter()
        .map(|h| match h.id {
            VectorId::U64(n) => n,
            other => panic!("unexpected id {other:?}"),
        })
        .collect()
}

fn assert_untrained(err: IvfError) {
    match err {
        IvfError::InvalidConfig { reason } => {
            assert!(reason.contains("trained"), "reason does not mention training: {reason}")
        }
        other => panic!("expected InvalidConfig (untrained), got {other:?}"),
    }
}

// -- Untrained state -------------------------------------------------

fn make_index() -> Ix {
    let cfg = IvfConfig::default().with_n_clusters(2).with_n_probes(2).with_training_sample_size(16).with_seed(1);
    Ix::new_unconfigured(2, Metric::Euclidean, cfg).unwrap()
}

fn make_sample() -> Vec<Vec<f32>> {
    vec![vec![0.0, 0.0], vec![0.1, -0.1], vec![-0.1, 0.1], vec![10.0, 10.0], vec![10.1, 9.9], vec![9.9, 10.1]]
}

#[test]
fn insert_before_train_fails() {
    let mut idx = make_index();
    assert_untrained(insert(&mut idx, 1, &[0.0, 0.0], None).unwrap_err());
}

#[test]
fn insert_batch_before_train_fails() {
    let mut idx = make_index();
    let items: Vec<(u64, Vec<f32>)> = vec![(1, vec![0.0, 0.0])];
    let mut first_err = None;
    for (id, v) in &items {
        if let Err(e) = insert(&mut idx, *id, v, None) {
            first_err = Some(e);
            break;
        }
    }
    assert_untrained(first_err.unwrap());
}

#[test]
fn search_before_train_fails() {
    let idx = make_index();
    assert_untrained(search(&idx, &[0.0, 0.0], 1, None).unwrap_err());
}

#[test]
fn search_batch_before_train_fails() {
    let idx = make_index();
    let queries: Vec<&[f32]> = vec![&[0.0, 0.0]];
    let results: Result<Vec<Vec<IvfHit>>, IvfError> = queries.iter().map(|q| search(&idx, q, 1, None)).collect();
    assert_untrained(results.unwrap_err());
}

#[test]
fn after_train_inserts_and_searches_succeed() {
    let mut idx = make_index();
    train(&mut idx, &make_sample()).unwrap();
    assert!(idx.is_trained());
    insert(&mut idx, 1, &[0.0, 0.0], None).unwrap();
    insert(&mut idx, 2, &[10.0, 10.0], None).unwrap();
    let hits = search(&idx, &[0.0, 0.0], 1, None).unwrap();
    assert_eq!(hits.len(), 1);
    assert_eq!(hit_id(&hits[0]), 1);
}

#[test]
fn double_train_is_rejected() {
    let mut idx = make_index();
    let sample = make_sample();
    train(&mut idx, &sample).unwrap();
    match train(&mut idx, &sample).unwrap_err() {
        IvfError::InvalidConfig { reason } => assert!(reason.contains("already trained")),
        other => panic!("expected InvalidConfig, got {other:?}"),
    }
}

#[test]
fn untrained_entry_points_error() {
    let cfg = IvfConfig::default().with_n_clusters(2).with_n_probes(1);
    let mut ivf = Ix::new_unconfigured(3, Metric::Euclidean, cfg).unwrap();
    assert!(insert(&mut ivf, 1, &[0.0, 0.0, 0.0], None).is_err());
    assert!(search(&ivf, &[0.0, 0.0, 0.0], 1, None).is_err());
}

#[test]
fn small_sample_rejected_and_index_stays_untrained() {
    let cfg = IvfConfig::default().with_n_clusters(10).with_n_probes(4).with_training_sample_size(64).with_seed(1);
    let mut idx = Ix::new_unconfigured(2, Metric::Euclidean, cfg).unwrap();
    assert!(!idx.is_trained());
    let too_few: Vec<Vec<f32>> = (0..5).map(|i| vec![i as f32, (i * 2) as f32]).collect();
    match train(&mut idx, &too_few).unwrap_err() {
        IvfError::InvalidConfig { reason } => assert!(reason.contains("sample.len() >= n_clusters")),
        other => panic!("expected InvalidConfig, got {other:?}"),
    }
    assert!(!idx.is_trained(), "failed train must leave the index untrained");
    let plenty: Vec<Vec<f32>> = (0..50).map(|i| vec![i as f32, (i * 2) as f32]).collect();
    train(&mut idx, &plenty).unwrap();
    assert!(idx.is_trained());
}

// -- Insert and delete ------------------------------------------------

fn populate(n: usize) -> Ix {
    let data: Vec<Vec<f32>> = (0..n)
        .map(|i| {
            let f = i as f32;
            vec![f * 0.01, ((f + 1.0) * 0.013).sin()]
        })
        .collect();
    let cfg = IvfConfig::default().with_n_clusters(4).with_n_probes(4).with_training_sample_size(256).with_seed(11);
    let mut idx = Ix::new_unconfigured(2, Metric::Euclidean, cfg).unwrap();
    train(&mut idx, &data).unwrap();
    for (i, v) in data.iter().enumerate() {
        insert(&mut idx, i as u64, v, None).unwrap();
    }
    idx
}

#[test]
fn deleted_ids_are_absent_from_search() {
    let mut idx = populate(100);
    for i in [3u64, 27, 42, 75] {
        delete(&mut idx, i).unwrap();
    }
    assert_eq!(idx.len(), 96);
    let hits = search(&idx, &[0.0, 0.0], 100, None).unwrap();
    let hit_ids: HashSet<u64> = ids(&hits).into_iter().collect();
    for i in [3u64, 27, 42, 75] {
        assert!(!hit_ids.contains(&i), "deleted id {i} should not appear in search results");
    }
}

#[test]
fn double_delete_returns_not_found() {
    let mut idx = populate(20);
    delete(&mut idx, 5).unwrap();
    assert!(matches!(delete(&mut idx, 5).unwrap_err(), IvfError::NotFound));
}

#[test]
fn delete_before_train_returns_not_found() {
    let mut idx = make_index();
    assert!(matches!(delete(&mut idx, 99).unwrap_err(), IvfError::NotFound));
}

#[test]
fn duplicate_insert_is_refused_and_changes_nothing() {
    let mut idx = populate(10);
    assert!(matches!(insert(&mut idx, 3, &[5.0, 5.0], None).unwrap_err(), IvfError::Duplicate));
    assert_eq!(idx.len(), 10);
}

#[test]
fn insert_with_wrong_length_reports_both_lengths() {
    let mut idx = populate(4);
    assert_eq!(
        insert(&mut idx, 100, &[1.0, 2.0, 3.0], None).unwrap_err(),
        IvfError::DimensionMismatch { expected: 2, found: 3 }
    );
}

#[test]
fn insert_then_delete_restores_the_live_set() {
    let mut idx = populate(12);
    let before = idx.cluster_stats();
    insert(&mut idx, 500, &[0.3, 0.2], None).unwrap();
    assert!(idx.contains(&ItemId::U64(500)));
    assert_eq!(idx.len(), 13);
    delete(&mut idx, 500).unwrap();
    assert!(!idx.contains(&ItemId::U64(500)));
    assert_eq!(idx.len(), 12);
    assert_eq!(idx.cluster_stats(), before);
}

#[test]
fn insert_goes_to_the_nearest_centroid_and_takes_the_next_sequence_number() {
    let mut idx = make_index();
    train_with(&mut idx, &make_sample(), vec![vec![0.0, 0.0], vec![10.0, 10.0]]).unwrap();
    insert(&mut idx, 1, &[9.0, 9.5], None).unwrap();
    insert(&mut idx, 2, &[0.5, 0.1], None).unwrap();
    assert_eq!(idx.list(0).len(), 1);
    assert_eq!(idx.list(1).len(), 1);
    assert_eq!(idx.entry(1, 0).seq, 0);
    assert_eq!(idx.entry(0, 0).seq, 1);
    assert_eq!(idx.entry(1, 0).vector, vec![9.0, 9.5]);
}

#[test]
fn byte_identifiers_are_supported() {
    let mut idx = make_index();
    train(&mut idx, &make_sample()).unwrap();
    let key = ItemId::Bytes(b"doc-7".to_vec());
    let sq: Vec<u32> = idx.centroids().iter().map(|c| squared_l2(c, &[1.0, 1.0]).to_bits()).collect();
    idx.insert(key.clone(), vec![1.0, 1.0], 2, None, &sq, Ok(None)).unwrap();
    assert!(idx.contains(&ItemId::Bytes(b"doc-7".to_vec())));
    assert!(matches!(
        idx.insert(key.clone(), vec![1.0, 1.0], 2, None, &sq, Ok(None)).unwrap_err(),
        IvfError::Duplicate
    ));
    idx.delete(&key).unwrap();
    assert!(!idx.contains(&key));
}

#[test]
fn encoding_error_is_returned_after_taking_a_sequence_number() {
    let mut idx = make_index();
    train(&mut idx, &make_sample()).unwrap();
    let sq: Vec<u32> = idx.centroids().iter().map(|c| squared_l2(c, &[1.0, 1.0]).to_bits()).collect();
    let err = idx.insert(ItemId::U64(1), vec![1.0, 1.0], 2, None, &sq, Err(IvfError::InvalidVector)).unwrap_err();
    assert_eq!(err, IvfError::InvalidVector);
    assert!(idx.is_empty());
    insert(&mut idx, 2, &[0.0, 0.0], None).unwrap();
    let c = if idx.list(0).len() == 1 { 0 } else { 1 };
    assert_eq!(idx.entry(c, 0).seq, 1);
}

// -- Search against the exact oracle -----------------------------------

fn dataset() -> Vec<Vec<f32>> {
    let centres = [(0.0, 0.0), (10.0, 0.0), (0.0, 10.0), (10.0, 10.0)];
    let mut out = Vec::with_capacity(centres.len() * 50);
    for (cx, cy) in centres {
        for i in 0..50 {
            let f = i as f32;
            let dx = (f * 0.11).sin() * 0.5;
            let dy = (f * 0.17).cos() * 0.5;
            out.push(vec![cx + dx, cy + dy]);
        }
    }
    out
}

fn flat_of(dim: usize, metric: DistanceMetric, data: &[Vec<f32>], meta: &[Option<Metadata>]) -> FlatIndex {
    let mut idx = FlatIndex::new(dim, metric, FlatConfig).unwrap();
    for (i, v) in data.iter().enumerate() {
        idx.insert(VectorId::from(i as u64), Arc::<[f32]>::from(v.as_slice()), meta[i].clone()).unwrap();
    }
    idx
}

fn ivf_of(dim: usize, metric: Metric, cfg: IvfConfig, data: &[Vec<f32>], meta: &[Option<Metadata>]) -> Ix {
    let mut idx = Ix::new_unconfigured(dim, metric, cfg).unwrap();
    train(&mut idx, data).unwrap();
    for (i, v) in data.iter().enumerate() {
        insert(&mut idx, i as u64, v, meta[i].clone()).unwrap();
    }
    idx
}

#[test]
fn full_probe_matches_flat_top_k() {
    let data = dataset();
    let none = vec![None; data.len()];
    let flat = flat_of(2, DistanceMetric::Euclidean, &data, &none);
    let cfg = IvfConfig::default().with_n_clusters(4).with_n_probes(4).with_training_sample_size(1024).with_seed(7);
    let ivf = ivf_of(2, Metric::Euclidean, cfg, &data, &none);
    let params = SearchParams::new(10, DistanceMetric::Euclidean);
    for q in [&data[0], &data[60], &data[120], &data[180]] {
        assert_eq!(flat_ids(&flat, q, &params), ids(&search(&ivf, q, 10, None).unwrap()), "full-probe IVF must match flat exactly");
    }
}

#[test]
fn empty_search_returns_empty() {
    let data = dataset();
    let cfg = IvfConfig::default().with_n_clusters(4).with_n_probes(4).with_training_sample_size(64).with_seed(1);
    let mut idx = Ix::new_unconfigured(2, Metric::Euclidean, cfg).unwrap();
    train(&mut idx, &data).unwrap();
    assert!(search(&idx, &[0.0, 0.0], 5, None).unwrap().is_empty());
}

#[test]
fn training_leaves_one_empty_size_per_cluster() {
    let data = dataset();
    let cfg = IvfConfig::default().with_n_clusters(4).with_n_probes(4).with_training_sample_size(64).with_seed(1);
    let mut idx = Ix::new_unconfigured(2, Metric::Euclidean, cfg).unwrap();
    assert!(idx.cluster_stats().cluster_sizes.is_empty());
    train(&mut idx, &data).unwrap();
    assert_eq!(idx.len(), 0);
    assert_eq!(idx.cluster_stats().cluster_sizes, vec![0, 0, 0, 0]);
}

#[test]
fn zero_k_returns_empty_and_wrong_metric_or_length_is_refused() {
    let idx = populate(10);
    assert!(search(&idx, &[0.0, 0.0], 0, None).unwrap().is_empty());
    assert_eq!(search(&idx, &[0.0, 0.0, 0.0], 3, None).unwrap_err(), IvfError::DimensionMismatch { expected: 2, found: 3 });
    assert!(matches!(idx.search_gate(2, 3, Metric::Cosine, None), Err(IvfError::InvalidMetric)));
}

#[test]
fn ivf_top1_matches_flat_under_dotproduct() {
    let data: Vec<Vec<f32>> = vec![
        vec![1.0, 0.0],
        vec![0.0, 1.0],
        vec![0.7, 0.7],
        vec![-1.0, 0.0],
        vec![0.5, 0.5],
        vec![2.0, 2.0],
        vec![1.5, 1.5],
        vec![0.9, 0.9],
    ];
    let none = vec![None; data.len()];
    let flat = flat_of(2, DistanceMetric::DotProduct, &data, &none);
    let cfg = IvfConfig::default().with_n_clusters(2).with_n_probes(2).with_training_sample_size(64).with_seed(3);
    let ivf = ivf_of(2, Metric::DotProduct, cfg, &data, &none);
    let query = [1.0_f32, 1.0];
    let flat_top = flat.search(&query, &SearchParams::new(1, DistanceMetric::DotProduct)).unwrap();
    let ivf_top = search(&ivf, &query, 1, None).unwrap();
    assert_eq!(flat_top.len(), 1);
    assert_eq!(ivf_top.len(), 1);
    assert_eq!(flat_top[0].id, VectorId::U64(hit_id(&ivf_top[0])));
    assert_eq!(flat_top[0].id, VectorId::U64(5));
    let ivf_d = f32::from_bits(ivf_top[0].distance);
    assert!((flat_top[0].distance - ivf_d).abs() < 1e-5, "distances should agree: flat={} ivf={}", flat_top[0].distance, ivf_d);
    assert!(flat_top[0].distance < 0.0, "negation should produce a negative distance");
}

const S_DIM: usize = 16;
const S_TRUE_CLUSTERS: u64 = 16;
const S_N: usize = 2_000;
const S_CLUSTERS: usize = 32;

fn centre_coord(c: u64, j: usize) -> f32 {
    let h = c.wrapping_mul(2_654_435_761).wrapping_add((j as u64).wrapping_mul(40_503));
    ((h % 1_000) as f32) / 1_000.0 * 20.0
}

fn scale_row(i: usize) -> Vec<f32> {
    let c = (i as u64) % S_TRUE_CLUSTERS;
    (0..S_DIM)
        .map(|j| {
            let jitter = ((((i * 131 + j * 71) % 100) as f32) - 50.0) * 0.006;
            centre_coord(c, j) + jitter
        })
        .collect()
}

fn query_near(c: u64) -> Vec<f32> {
    (0..S_DIM)
        .map(|j| {
            let jitter = ((((c as usize * 909 + j * 13) % 100) as f32) - 50.0) * 0.004;
            centre_coord(c, j) + jitter
        })
        .collect()
}

#[test]
fn exhaustive_ivf_flat_is_exact_at_scale() {
    let data: Vec<Vec<f32>> = (0..S_N).map(scale_row).collect();
    let none = vec![None; data.len()];
    let flat = flat_of(S_DIM, DistanceMetric::Euclidean, &data, &none);
    let cfg = IvfConfig::default().with_n_clusters(S_CLUSTERS).with_n_probes(S_CLUSTERS).with_training_sample_size(4096).with_seed(0xABCD);
    let ivf = ivf_of(S_DIM, Metric::Euclidean, cfg, &data, &none);
    let params = SearchParams::new(10, DistanceMetric::Euclidean);
    for c in 0..S_TRUE_CLUSTERS {
        let q = query_near(c);
        assert_eq!(flat_ids(&flat, &q, &params), ids(&search(&ivf, &q, 10, None).unwrap()), "full-probe IVF-Flat must equal the oracle (cluster {c})");
    }
}

// -- Filtered search ----------------------------------------------------

const F_DIM: usize = 4;
const F_CLUSTERS: usize = 4;
const F_VECTORS: usize = 384;
const TOPK: usize = 8;

fn next_u64(state: &mut u64) -> u64 {
    *state = state.wrapping_add(0x9E37_79B9_7F4A_7C15);
    let mut z = *state;
    z = (z ^ (z >> 30)).wrapping_mul(0xBF58_476D_1CE4_E5B9);
    z = (z ^ (z >> 27)).wrapping_mul(0x94D0_49BB_1331_11EB);
    z ^ (z >> 31)
}

fn unit_float(state: &mut u64) -> f32 {
    let raw = next_u64(state);
    (raw >> 11) as f32 / (1u64 << 53) as f32
}

fn corpus(seed: u64) -> (Vec<Vec<f32>>, Vec<Option<Metadata>>) {
    let mut state = seed.wrapping_add(0xDEAD_BEEF_CAFE_F00D);
    let colours = ["red", "green", "blue"];
    let centres: Vec<Vec<f32>> = (0..F_CLUSTERS)
        .map(|c| {
            let base = c as f32 * 5.0;
            (0..F_DIM).map(|i| base + i as f32 * 0.1).collect()
        })
        .collect();
    let mut vecs = Vec::new();
    let mut metas = Vec::new();
    for i in 0..F_VECTORS {
        let centre = &centres[i % centres.len()];
        let vector: Vec<f32> = centre.iter().map(|&c| c + (unit_float(&mut state) * 2.0 - 1.0) * 0.4).collect();
        let meta: Metadata = [
            ("colour".to_string(), Value::String(colours[i % colours.len()].to_string())),
            ("year".to_string(), Value::Int(2000 + (i % 30) as i64)),
        ]
        .into_iter()
        .collect();
        vecs.push(vector);
        metas.push(Some(meta));
    }
    (vecs, metas)
}

fn filter_cfg() -> IvfConfig {
    IvfConfig::default()
        .with_n_clusters(F_CLUSTERS)
        .with_n_probes(F_CLUSTERS)
        .with_training_sample_size(F_VECTORS)
        .with_seed(0xC0FF_EE42)
}

#[test]
fn filtered_search_matches_flat_oracle_ivf_flat() {
    let (data, meta) = corpus(1);
    let flat = flat_of(F_DIM, DistanceMetric::Euclidean, &data, &meta);
    let ivf = ivf_of(F_DIM, Metric::Euclidean, filter_cfg(), &data, &meta);
    let filter = Filter::and(vec![
        Filter::eq("colour", Value::String("blue".to_string())),
        Filter::gt("year", Value::Int(2010)),
    ]);
    let mut params = SearchParams::new(TOPK, DistanceMetric::Euclidean);
    params.filter = Some(filter.clone());
    let query: Vec<f32> = (0..F_DIM).map(|i| i as f32 * 0.1).collect();
    let ivf_ids = ids(&search(&ivf, &query, TOPK, Some(&filter)).unwrap());
    assert_eq!(ivf_ids, flat_ids(&flat, &query, &params), "exhaustive IVF-Flat must match the FlatIndex oracle byte-for-byte");
}

#[test]
fn filter_none_path_unchanged() {
    let (data, meta) = corpus(3);
    let ivf = ivf_of(F_DIM, Metric::Euclidean, filter_cfg(), &data, &meta);
    let query: Vec<f32> = (0..F_DIM).map(|i| i as f32 * 0.1).collect();
    let hits = search(&ivf, &query, TOPK, None).unwrap();
    assert_eq!(hits.len(), TOPK);
    let flat = flat_of(F_DIM, DistanceMetric::Euclidean, &data, &meta);
    assert_eq!(ids(&hits), flat_ids(&flat, &query, &SearchParams::new(TOPK, DistanceMetric::Euclidean)));
}

#[test]
fn pathological_filter_surfaces_invalid_filter() {
    let (data, meta) = corpus(5);
    let ivf = ivf_of(F_DIM, Metric::Euclidean, filter_cfg(), &data, &meta);
    let mut deep = Filter::eq("colour", Value::String("blue".to_string()));
    for _ in 0..=MAX_FILTER_DEPTH {
        deep = Filter::not(deep);
    }
    let query: Vec<f32> = (0..F_DIM).map(|i| i as f32 * 0.1).collect();
    let err = search(&ivf, &query, TOPK, Some(&deep)).unwrap_err();
    assert!(matches!(err, IvfError::InvalidFilter), "expected InvalidFilter from FilterEvaluator::new, got {err:?}");
}

#[test]
fn filtered_hits_satisfy_the_predicate_and_come_from_the_unfiltered_candidates() {
    let (data, meta) = corpus(8);
    let ivf = ivf_of(F_DIM, Metric::Euclidean, filter_cfg(), &data, &meta);
    let query: Vec<f32> = (0..F_DIM).map(|i| i as f32 * 0.3).collect();
    let all: HashSet<u64> = ids(&search(&ivf, &query, F_VECTORS, None).unwrap()).into_iter().collect();
    let red = Filter::eq("colour", Value::String("red".to_string()));
    let hits = search(&ivf, &query, 20, Some(&red)).unwrap();
    assert_eq!(hits.len(), 20);
    for h in &hits {
        assert!(all.contains(&hit_id(h)));
        let m = h.metadata.as_ref().expect("inserted with metadata");
        assert_eq!(m.get("colour"), Some(&Value::String("red".to_string())));
    }
}

// -- Probe tuning ----------------------------------------------------------

const P_DIM: usize = 4;

fn skewed_index() -> Ix {
    let cfg = IvfConfig::default().with_n_clusters(4).with_n_probes(4).with_training_sample_size(256).with_seed(0xBAD_F00D);
    let mut idx = Ix::new_unconfigured(P_DIM, Metric::Euclidean, cfg).unwrap();
    let centres: Vec<Vec<f32>> = (0..4).map(|c| (0..P_DIM).map(|i| c as f32 * 5.0 + i as f32 * 0.1).collect()).collect();
    let mut data: Vec<Vec<f32>> = Vec::new();
    for i in 0..64 {
        let jitter = (i as f32) * 0.001;
        data.push(centres[0].iter().map(|c| c + jitter).collect());
    }
    for centre in centres.iter().skip(1) {
        for i in 0..4 {
            let jitter = (i as f32) * 0.001;
            data.push(centre.iter().map(|x| x + jitter).collect());
        }
    }
    train_with(&mut idx, &data, centres).unwrap();
    for (i, v) in data.iter().enumerate() {
        insert(&mut idx, i as u64, v, None).unwrap();
    }
    idx
}

fn single_cluster_index() -> Ix {
    let cfg = IvfConfig::default().with_n_clusters(1).with_n_probes(1).with_training_sample_size(8).with_seed(42);
    let mut idx = Ix::new_unconfigured(P_DIM, Metric::Euclidean, cfg).unwrap();
    let data: Vec<Vec<f32>> = (0..8).map(|i| (0..P_DIM).map(|j| (i + j) as f32 * 0.1).collect()).collect();
    train(&mut idx, &data).unwrap();
    for (i, v) in data.iter().enumerate() {
        insert(&mut idx, i as u64, v, None).unwrap();
    }
    idx
}

/// The caller's part of a probe suggestion: `ceil(len * coverage)`.
fn suggest(idx: &Ix, coverage: f32) -> Result<usize, IvfError> {
    let target = ((idx.len() as f64) * (coverage as f64)).ceil();
    let target = if target.is_finite() && target >= 0.0 { target as usize } else { 0 };
    idx.suggest_n_probes(coverage.to_bits(), target)
}

#[test]
fn suggest_is_monotonic_in_coverage() {
    let idx = skewed_index();
    let mut last: usize = 0;
    for step in 0..=10 {
        let coverage = step as f32 * 0.1;
        let n = suggest(&idx, coverage).unwrap();
        assert!(n >= last, "suggest is non-monotonic at coverage = {coverage}: {n} < {last}");
        last = n;
    }
}

#[test]
fn suggest_covers_requested_fraction() {
    let idx = skewed_index();
    let stats = idx.cluster_stats();
    let live: usize = stats.cluster_sizes.iter().sum();
    let mut sorted = stats.cluster_sizes.clone();
    sorted.sort_by(|a, b| b.cmp(a));
    for &coverage in &[0.25_f32, 0.5, 0.75, 0.9] {
        let n = suggest(&idx, coverage).unwrap();
        let cumsum: usize = sorted.iter().take(n).sum();
        let target = ((live as f64) * (coverage as f64)).ceil() as usize;
        assert!(cumsum >= target, "coverage {coverage}: suggested {n} probes cover {cumsum} < target {target}");
    }
}

#[test]
fn suggest_edge_zero_returns_one() {
    let idx = skewed_index();
    assert_eq!(suggest(&idx, 0.0).unwrap(), 1);
    assert_eq!(suggest(&idx, -0.0).unwrap(), 1);
}

#[test]
fn suggest_edge_one_returns_n_clusters() {
    let idx = skewed_index();
    assert_eq!(suggest(&idx, 1.0).unwrap(), idx.cluster_stats().n_clusters);
}

#[test]
fn suggest_on_single_cluster_index_always_returns_one() {
    let idx = single_cluster_index();
    for &c in &[0.0_f32, 0.25, 0.5, 0.75, 1.0] {
        assert_eq!(suggest(&idx, c).unwrap(), 1, "coverage = {c}");
    }
}

#[test]
fn suggest_rejects_out_of_range() {
    let idx = skewed_index();
    for &bad in &[-0.1_f32, 1.1, f32::NAN, f32::INFINITY, f32::NEG_INFINITY] {
        let err = suggest(&idx, bad).unwrap_err();
        assert!(
            matches!(err, IvfError::InvalidConfig { reason } if reason.contains("coverage")),
            "coverage {bad} should be InvalidConfig, got {err:?}",
        );
    }
}

#[test]
fn suggest_then_set_n_probes_composes() {
    let mut idx = skewed_index();
    let n = suggest(&idx, 0.8).unwrap();
    assert!(n >= 1 && n <= idx.cluster_stats().n_clusters);
    idx.set_n_probes(n).unwrap();
    let query: Vec<f32> = (0..P_DIM).map(|i| i as f32 * 0.1).collect();
    assert_eq!(search(&idx, &query, 4, None).unwrap().len(), 4);
}

#[test]
fn suggest_on_untrained_returns_one() {
    let cfg = IvfConfig::default().with_n_clusters(4).with_n_probes(2).with_training_sample_size(16).with_seed(9);
    let idx = Ix::new_unconfigured(P_DIM, Metric::Euclidean, cfg).unwrap();
    assert!(!idx.is_trained());
    for &c in &[0.0_f32, 0.5, 1.0] {
        assert_eq!(suggest(&idx, c).unwrap(), 1, "coverage = {c}");
    }
}

#[test]
fn skewed_cluster_sizes_give_exact_suggestions() {
    // Sizes 64, 4, 4, 4 (76 live). Targets: 0.84 -> 64 (the largest list
    // alone), 0.89 -> 68 (two lists), 0.9 -> 69 (three), 0.99 -> 76 (all).
    let idx = skewed_index();
    assert_eq!(idx.cluster_stats().cluster_sizes, vec![64, 4, 4, 4]);
    assert_eq!(suggest(&idx, 0.84).unwrap(), 1);
    assert_eq!(suggest(&idx, 0.89).unwrap(), 2);
    assert_eq!(suggest(&idx, 0.9).unwrap(), 3);
    assert_eq!(suggest(&idx, 0.99).unwrap(), 4);
}

// -- Retrain ------------------------------------------------------------------

fn retrain(ix: &mut Ix) -> Result<(), IvfError> {
    let working = match ix.begin_retrain()? {
        None => return Ok(()),
        Some(w) => w,
    };
    let sample: Vec<Vec<f32>> = working.iter().map(|&(c, p)| ix.entry(c, p).vector.clone()).collect();
    let lens: Vec<usize> = sample.iter().map(|v| v.len()).collect();
    let (w, _rng) = iqdb_ivf::train::plan_training_set(ix.dim(), ix.config().n_clusters, ix.config().seed, &lens, lens.len())?;
    let centroids: Vec<Vec<f32>> = w[..ix.config().n_clusters].iter().map(|&i| sample[i].clone()).collect();
    let n = ix.config().n_clusters;
    let pq = trained_quantizer(ix, &sample);
    let mut sq: Vec<Vec<Vec<u32>>> = Vec::new();
    let mut codes: Vec<Vec<Option<iqdb_quantize::PqCode>>> = Vec::new();
    for c in 0..n {
        let list = ix.list(c);
        sq.push(list.iter().map(|e| centroids.iter().map(|cc| squared_l2(cc, &e.vector).to_bits()).collect()).collect());
        codes.push(list.iter().map(|e| pq.as_ref().map(|q| q.quantize(&e.vector).unwrap())).collect());
    }
    ix.finish_retrain(centroids, pq, codes, &sq);
    Ok(())
}

#[test]
fn retrain_preserves_ids_and_count() {
    let cfg = IvfConfig::default().with_n_clusters(4).with_n_probes(4).with_training_sample_size(256).with_seed(0xABCD_EF01_2345_6789);
    let centres: Vec<Vec<f32>> = (0..4).map(|c| (0..4).map(|i| c as f32 * 5.0 + i as f32 * 0.1).collect()).collect();
    let mut state = 11u64.wrapping_add(0x1234_5678_9ABC_DEF0);
    let data: Vec<Vec<f32>> = (0..64)
        .map(|i| centres[i % 4].iter().map(|&c| c + (unit_float(&mut state) * 2.0 - 1.0) * 0.3).collect())
        .collect();
    let none = vec![None; data.len()];
    let mut idx = ivf_of(4, Metric::Euclidean, cfg, &data, &none);
    let before_len = idx.len();
    retrain(&mut idx).unwrap();
    assert_eq!(idx.len(), before_len, "retrain must preserve live count");
    let after: HashSet<u64> = ids(&search(&idx, &[0.0; 4], before_len, None).unwrap()).into_iter().collect();
    let expected: HashSet<u64> = (0..before_len as u64).collect();
    assert_eq!(after, expected, "retrain must preserve every id");
}

#[test]
fn retrain_on_empty_index_is_noop() {
    let cfg = IvfConfig::default().with_n_clusters(2).with_n_probes(2).with_training_sample_size(256).with_seed(0xABCD_EF01_2345_6789);
    let data: Vec<Vec<f32>> = (0..16).map(|i| vec![(i % 2) as f32 * 10.0 + i as f32 * 0.01; 4]).collect();
    let none = vec![None; data.len()];
    let mut idx = ivf_of(4, Metric::Euclidean, cfg, &data, &none);
    for i in 0..(data.len() as u64) {
        delete(&mut idx, i).unwrap();
    }
    assert_eq!(idx.len(), 0);
    assert!(matches!(idx.begin_retrain(), Ok(None)));
    retrain(&mut idx).unwrap();
    assert!(search(&idx, &[0.0; 4], 4, None).unwrap().is_empty());
    assert!(idx.is_trained(), "empty retrain must not untrain the index");
}

#[test]
fn retrain_before_train_errors() {
    let cfg = IvfConfig::default().with_n_clusters(2).with_n_probes(1).with_training_sample_size(8).with_seed(7);
    let mut idx = Ix::new_unconfigured(4, Metric::Euclidean, cfg).unwrap();
    let err = retrain(&mut idx).unwrap_err();
    assert!(
        matches!(err, IvfError::InvalidConfig { reason } if reason.contains("trained")),
        "expected InvalidConfig for retrain-before-train, got {err:?}",
    );
}

#[test]
fn retrain_working_set_follows_insertion_order_not_layout() {
    // Two indexes with the same live entries but different delete
    // histories plan the same working set (by sequence number).
    let cfg = IvfConfig::default().with_n_clusters(2).with_n_probes(2).with_training_sample_size(5).with_seed(3);
    let data: Vec<Vec<f32>> = (0..12).map(|i| vec![(i % 2) as f32 * 10.0 + i as f32 * 0.1, 0.0]).collect();
    let none = vec![None; data.len()];
    let mut a = ivf_of(2, Metric::Euclidean, cfg, &data, &none);
    let b = ivf_of(2, Metric::Euclidean, cfg, &data, &none);
    let wa: Vec<u64> = a.begin_retrain().unwrap().unwrap().iter().map(|&(c, p)| a.entry(c, p).seq).collect();
    let wb: Vec<u64> = b.begin_retrain().unwrap().unwrap().iter().map(|&(c, p)| b.entry(c, p).seq).collect();
    assert_eq!(wa, wb);
    assert_eq!(wa.len(), 5);
    // Delete and re-insert shuffles positions in `a` but the order by
    // sequence number of the remaining entries is what retraining reads.
    delete(&mut a, 0).unwrap();
    let wa2: Vec<u64> = a.begin_retrain().unwrap().unwrap().iter().map(|&(c, p)| a.entry(c, p).seq).collect();
    assert_eq!(wa2.len(), 5);
    assert!(!wa2.contains(&0));
}

#[test]
fn addresses_in_sequence_order_are_sorted_by_seq() {
    let mut idx = populate(30);
    for i in [2u64, 9, 17] {
        delete(&mut idx, i).unwrap();
    }
    let order = idx.addrs_in_seq_order();
    assert_eq!(order.len(), 27);
    let seqs: Vec<u64> = order.iter().map(|&(c, p)| idx.entry(c, p).seq).collect();
    let mut sorted = seqs.clone();
    sorted.sort();
    assert_eq!(seqs, sorted);
}

// -- Product quantization -------------------------------------------------------

const Q_DIM: usize = 8;
const Q_M: usize = 2;
const Q_TRAIN: usize = 512;

fn gaussian_cluster_corpus(seed: u64, n: usize) -> Vec<Vec<f32>> {
    let mut state = seed.wrapping_add(0x9E37_79B9_7F4A_7C15);
    let centres: Vec<Vec<f32>> = (0..4).map(|c| (0..Q_DIM).map(|i| c as f32 * 5.0 + i as f32 * 0.1).collect()).collect();
    (0..n)
        .map(|i| {
            let centre = &centres[i % centres.len()];
            centre
                .iter()
                .map(|&c| {
                    let u = (next_u64(&mut state) >> 11) as f32 / (1u64 << 53) as f32;
                    c + (u * 2.0 - 1.0) * 0.3
                })
                .collect()
        })
        .collect()
}

fn pq_cfg(seed: u64) -> IvfConfig {
    IvfConfig::default()
        .with_n_clusters(4)
        .with_n_probes(4)
        .with_training_sample_size(Q_TRAIN)
        .with_use_pq(true)
        .with_pq_subvectors(Some(Q_M))
        .with_seed(seed)
}

#[test]
fn pq_index_trains_inserts_and_searches() {
    let data = gaussian_cluster_corpus(11, Q_TRAIN);
    let mut idx = Ix::new_unconfigured(Q_DIM, Metric::Euclidean, pq_cfg(42)).unwrap();
    assert!(!idx.is_trained());
    train(&mut idx, &data).unwrap();
    assert!(idx.is_trained());
    for (i, v) in data.iter().enumerate() {
        insert(&mut idx, i as u64, v, None).unwrap();
    }
    assert_eq!(idx.len(), Q_TRAIN);
    let hits = search(&idx, &data[0], 5, None).unwrap();
    assert_eq!(hits.len(), 5);
    for w in hits.windows(2) {
        let (a, b) = (f32::from_bits(w[0].distance), f32::from_bits(w[1].distance));
        assert!(a <= b, "hits must be in ascending distance order; got {} then {}", a, b);
    }
    assert!(ids(&hits).contains(&0), "self-query should retrieve own id; got {:?}", ids(&hits));
}

#[test]
fn pq_empty_search_returns_empty() {
    let data = gaussian_cluster_corpus(2, Q_TRAIN);
    let mut idx = Ix::new_unconfigured(Q_DIM, Metric::Euclidean, pq_cfg(1)).unwrap();
    train(&mut idx, &data).unwrap();
    assert!(search(&idx, &vec![0.0_f32; Q_DIM], 5, None).unwrap().is_empty());
}

#[test]
fn pq_refine_respects_filter() {
    let (data, meta) = corpus(4);
    let cfg = filter_cfg().with_use_pq(true).with_pq_subvectors(Some(2)).with_pq_refine_factor(4);
    let ivf = ivf_of(F_DIM, Metric::Euclidean, cfg, &data, &meta);
    let filter = Filter::eq("colour", Value::String("red".to_string()));
    let query: Vec<f32> = (0..F_DIM).map(|i| i as f32 * 0.05).collect();
    let hits = search(&ivf, &query, TOPK, Some(&filter)).unwrap();
    for hit in &hits {
        let meta = hit.metadata.as_ref().expect("populated with metadata");
        let colour = meta.get("colour").expect("colour field present");
        assert_eq!(colour, &Value::String("red".to_string()), "PQ refine returned a Hit that should have been filtered out: {:?}", hit);
    }
}

#[test]
fn pq_refine_zero_returns_lookup_table_ranking() {
    let data = gaussian_cluster_corpus(5, Q_TRAIN);
    let mut idx = Ix::new_unconfigured(Q_DIM, Metric::Euclidean, pq_cfg(9).with_pq_refine_factor(0)).unwrap();
    train(&mut idx, &data).unwrap();
    for (i, v) in data.iter().enumerate() {
        insert(&mut idx, i as u64, v, None).unwrap();
    }
    let q = &data[3];
    let addrs = idx.probe_candidates(&[0, 1, 2, 3], None);
    let pq = idx.quantizer().as_ref().unwrap();
    let tables = pq.build_query_tables(q, DistanceMetric::Euclidean).unwrap();
    let adc: Vec<u32> = addrs.iter().map(|&(c, p)| tables.distance(idx.entry(c, p).pq_code.as_ref().unwrap()).unwrap().to_bits()).collect();
    match idx.pq_step(&addrs, &adc, 7) {
        PqStep::Hits(h) => {
            assert_eq!(h.len(), 7);
            // The reported distances are the lookup-table scores.
            let best = adc.iter().map(|&b| f32::from_bits(b)).fold(f32::INFINITY, f32::min);
            assert_eq!(f32::from_bits(h[0].distance), best);
        }
        PqStep::Rerank(_) => panic!("refine factor 0 must not rerank"),
    }
    idx.set_pq_refine_factor(3);
    match idx.pq_step(&addrs, &adc, 7) {
        PqStep::Rerank(short) => assert_eq!(short.len(), 21),
        PqStep::Hits(_) => panic!("refine factor 3 must rerank"),
    }
}

#[test]
fn new_quantizer_has_the_configured_shape() {
    let idx = Ix::new_unconfigured(Q_DIM, Metric::Euclidean, pq_cfg(77)).unwrap();
    let q = idx.new_quantizer().unwrap();
    assert_eq!(q.n_subvectors(), Q_M);
    assert_eq!(q.n_centroids(), 256);
    assert_eq!(q.seed(), 77);
    let flat = Ix::new_unconfigured(Q_DIM, Metric::Euclidean, IvfConfig::default()).unwrap();
    assert!(flat.new_quantizer().is_none());
}

// -- Laws on concrete values -----------------------------------------------------

#[test]
fn hits_are_sorted_bounded_distinct_and_live() {
    let mut idx = populate(25);
    delete(&mut idx, 7).unwrap();
    let hits = search(&idx, &[0.1, 0.1], 100, None).unwrap();
    assert_eq!(hits.len(), 24);
    let unique: HashSet<u64> = ids(&hits).into_iter().collect();
    assert_eq!(unique.len(), 24);
    assert!(!unique.contains(&7));
    for w in hits.windows(2) {
        assert!(f32::from_bits(w[0].distance).total_cmp(&f32::from_bits(w[1].distance)).is_le());
    }
    assert_eq!(search(&idx, &[0.1, 0.1], 3, None).unwrap().len(), 3);
}

#[test]
fn cluster_sizes_add_up_to_the_live_count() {
    let mut idx = populate(40);
    for i in [1u64, 2, 3, 30] {
        delete(&mut idx, i).unwrap();
    }
    let stats = idx.cluster_stats();
    assert_eq!(stats.cluster_sizes.len(), 4);
    assert_eq!(stats.cluster_sizes.iter().sum::<usize>(), idx.len());
    assert_eq!(idx.len(), 36);
}

#[test]
fn retrain_keeps_sequence_numbers() {
    let mut idx = populate(30);
    delete(&mut idx, 4).unwrap();
    let mut before: Vec<(u64, u64)> = Vec::new();
    for c in 0..4 {
        for e in idx.list(c) {
            if let ItemId::U64(n) = e.id {
                before.push((n, e.seq));
            }
        }
    }
    retrain(&mut idx).unwrap();
    let mut after: Vec<(u64, u64)> = Vec::new();
    for c in 0..4 {
        for e in idx.list(c) {
            if let ItemId::U64(n) = e.id {
                after.push((n, e.seq));
            }
        }
    }
    before.sort();
    after.sort();
    assert_eq!(before, after);
    for c in 0..4 {
        let seqs: Vec<u64> = idx.list(c).iter().map(|e| e.seq).collect();
        assert!(seqs.windows(2).all(|w| w[0] < w[1]), "list {c} is not in insertion order: {seqs:?}");
    }
}

#[test]
fn probing_every_list_ranks_like_an_exhaustive_scan_in_any_order() {
    let idx = populate(50);
    let q = [0.2_f32, 0.3];
    let forward = idx.probe_candidates(&[0, 1, 2, 3], None);
    let backward = idx.probe_candidates(&[3, 2, 1, 0], None);
    assert_eq!(forward.len(), 50);
    let score = |addrs: &[(usize, usize)]| -> Vec<u64> {
        let vecs: Vec<&[f32]> = addrs.iter().map(|&(c, p)| idx.entry(c, p).vector.as_slice()).collect();
        ids(&idx.rank_hits(addrs, &raw(Metric::Euclidean, &q, &vecs), 12))
    };
    assert_eq!(score(&forward), score(&backward));
}

// -- Retrain determinism and product quantization --------------------------------

fn cluster_corpus(seed: u64, n: usize, centres: &[Vec<f32>], jitter: f32) -> Vec<Vec<f32>> {
    let mut state = seed.wrapping_add(0x1234_5678_9ABC_DEF0);
    (0..n)
        .map(|i| {
            let centre = &centres[i % centres.len()];
            centre.iter().map(|&c| c + (unit_float(&mut state) * 2.0 - 1.0) * jitter).collect()
        })
        .collect()
}

fn retrain_cfg(use_pq: bool, n_clusters: usize) -> IvfConfig {
    let base = IvfConfig::default()
        .with_n_clusters(n_clusters)
        .with_n_probes(n_clusters)
        .with_training_sample_size(256)
        .with_seed(0xABCD_EF01_2345_6789);
    if use_pq {
        base.with_use_pq(true).with_pq_subvectors(Some(2)).with_pq_refine_factor(4)
    } else {
        base
    }
}

#[test]
fn retrain_is_deterministic_under_seed() {
    let centres: Vec<Vec<f32>> = (0..4).map(|c| (0..4).map(|i| c as f32 * 5.0 + i as f32 * 0.1).collect()).collect();
    let data = cluster_corpus(31, 64, &centres, 0.25);
    let none = vec![None; data.len()];
    let mut a = ivf_of(4, Metric::Euclidean, retrain_cfg(false, 4), &data, &none);
    let mut b = ivf_of(4, Metric::Euclidean, retrain_cfg(false, 4), &data, &none);
    retrain(&mut a).unwrap();
    retrain(&mut b).unwrap();
    let query: Vec<f32> = (0..4).map(|i| i as f32 * 0.3).collect();
    assert_eq!(
        ids(&search(&a, &query, 8, None).unwrap()),
        ids(&search(&b, &query, 8, None).unwrap()),
        "retrain must be deterministic under seed"
    );
}

#[test]
fn retrain_reencodes_pq_codes() {
    let centres: Vec<Vec<f32>> = (0..2).map(|c| (0..4).map(|i| c as f32 * 8.0 + i as f32 * 0.1).collect()).collect();
    let data = cluster_corpus(41, 384, &centres, 0.3);
    let none = vec![None; data.len()];
    let mut idx = ivf_of(4, Metric::Euclidean, retrain_cfg(true, 4), &data, &none);
    retrain(&mut idx).unwrap();
    let flat = flat_of(4, DistanceMetric::Euclidean, &data, &none);
    let query: Vec<f32> = (0..4).map(|i| i as f32 * 0.4).collect();
    let k = 8;
    let ivf_hits: HashSet<u64> = ids(&search(&idx, &query, k, None).unwrap()).into_iter().collect();
    let flat_full: HashSet<u64> =
        flat_ids(&flat, &query, &SearchParams::new(data.len(), DistanceMetric::Euclidean)).into_iter().collect();
    for id in &ivf_hits {
        assert!(flat_full.contains(id), "post-retrain IVF-PQ hit not in the flat corpus: {id:?}");
    }
    assert_eq!(ivf_hits.len(), k.min(data.len()));
}

#[test]
fn retrain_respects_training_sample_size_cap() {
    let centres: Vec<Vec<f32>> = (0..4).map(|c| (0..4).map(|i| c as f32 * 5.0 + i as f32 * 0.1).collect()).collect();
    let data = cluster_corpus(51, 512, &centres, 0.3);
    let none = vec![None; data.len()];
    let cfg = IvfConfig::default().with_n_clusters(4).with_n_probes(4).with_training_sample_size(64).with_seed(0x5A5A_5A5A_5A5A_5A5A);
    let mut idx = ivf_of(4, Metric::Euclidean, cfg, &data, &none);
    assert_eq!(idx.begin_retrain().unwrap().unwrap().len(), 64);
    retrain(&mut idx).unwrap();
    let query: Vec<f32> = (0..4).map(|i| i as f32 * 0.3).collect();
    let after_first = ids(&search(&idx, &query, 8, None).unwrap());
    retrain(&mut idx).unwrap();
    let after_second = ids(&search(&idx, &query, 8, None).unwrap());
    assert_eq!(after_first, after_second, "two retrains from the same state must produce identical results (cap respected)");
}

#[test]
fn filtered_search_matches_flat_oracle_ivf_pq() {
    let (data, meta) = corpus(2);
    let flat = flat_of(F_DIM, DistanceMetric::Euclidean, &data, &meta);
    let cfg = filter_cfg().with_use_pq(true).with_pq_subvectors(Some(2)).with_pq_refine_factor(4);
    let ivf = ivf_of(F_DIM, Metric::Euclidean, cfg, &data, &meta);
    let filter = Filter::is_in("colour", vec![Value::String("red".to_string()), Value::String("green".to_string())]);
    let query: Vec<f32> = (0..F_DIM).map(|i| (i + 5) as f32 * 0.1).collect();
    let ivf_hits: HashSet<u64> = ids(&search(&ivf, &query, TOPK, Some(&filter)).unwrap()).into_iter().collect();
    let mut wide = SearchParams::new(F_VECTORS, DistanceMetric::Euclidean);
    wide.filter = Some(filter.clone());
    let flat_survivors: HashSet<u64> = flat_ids(&flat, &query, &wide).into_iter().collect();
    for id in &ivf_hits {
        assert!(flat_survivors.contains(id), "IVF-PQ returned a Hit that should have been filtered out: {id:?}");
    }
}

fn pos_dotproduct_corpus(seed: u64, n: usize) -> Vec<Vec<f32>> {
    let mut state = seed.wrapping_add(0x9E37_79B9_7F4A_7C15);
    (0..n)
        .map(|_| {
            (0..Q_DIM)
                .map(|_| {
                    let u = (next_u64(&mut state) >> 11) as f32 / (1u64 << 53) as f32;
                    1.0 + u * 4.0
                })
                .collect()
        })
        .collect()
}

#[test]
fn pq_top_hit_under_dotproduct_matches_flat() {
    let data = pos_dotproduct_corpus(3, Q_TRAIN);
    let none = vec![None; data.len()];
    let flat = flat_of(Q_DIM, DistanceMetric::DotProduct, &data, &none);
    let cfg = IvfConfig::default()
        .with_n_clusters(4)
        .with_n_probes(4)
        .with_training_sample_size(Q_TRAIN)
        .with_use_pq(true)
        .with_pq_subvectors(Some(Q_M))
        .with_pq_refine_factor(4)
        .with_seed(17);
    let ivf = ivf_of(Q_DIM, Metric::DotProduct, cfg, &data, &none);
    let query = vec![1.0_f32; Q_DIM];
    let flat_hit = flat.search(&query, &SearchParams::new(1, DistanceMetric::DotProduct)).unwrap();
    let ivf_hit = search(&ivf, &query, 1, None).unwrap();
    assert_eq!(flat_hit.len(), 1);
    assert_eq!(ivf_hit.len(), 1);
    assert_eq!(flat_hit[0].id, VectorId::U64(hit_id(&ivf_hit[0])), "IVF-PQ top hit must match flat under DotProduct (with refine ON)");
    assert!(flat_hit[0].distance < 0.0, "negated DotProduct should produce a negative distance; got {}", flat_hit[0].distance);
    let d = f32::from_bits(ivf_hit[0].distance);
    assert!(d < 0.0, "negated DotProduct should produce a negative distance; got {}", d);
}
