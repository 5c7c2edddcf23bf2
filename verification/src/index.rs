//! [`IvfIndex`]: the inverted lists, their bookkeeping, and the decisions
//! of every index operation.
//!
//! The index is generic over the vector handle `V` it stores (the caller's
//! shared `f32` payload); it never looks inside a vector. Work on vector
//! components (k-means, squared distances, metric distances, product
//! quantization) is done by the caller, who hands the results to the
//! functions here as `f32` bit patterns.

use vstd::prelude::*;
use iqdb_filter::FilterEvaluator;
use iqdb_quantize::{PqCode, ProductQuantizer};
use iqdb_types::{Filter, Metadata};
use crate::assign::{nearest_centroid, nearest_index};
use crate::config::{config_ok, validate_spec, IvfConfig};
use crate::error::IvfError;
use crate::id::{IdDirectory, IdView, ItemId};
use crate::metric::{pq_supports_spec, Metric};
use crate::float_bits::is_zero_spec;
use crate::probes::{count_to_cover, cover_count, prefix_sum, sizes_desc, sort_sizes_desc};
use crate::stats::IvfClusterStats;
use crate::rng::{subsample_spec, subsample_state, SplitMix64};
use crate::train::{plan_training_set, training_sample_check};

verus! {

/// One stored vector: its identifier, the caller's vector handle, its
/// product-quantization code (present exactly when the index quantizes),
/// its metadata, and its insertion-sequence number.
pub struct Entry<V> {
    /// The identifier.
    pub id: ItemId,
    /// The caller's handle on the vector components.
    pub vector: V,
    /// The product-quantization code, when the index quantizes.
    pub pq_code: Option<PqCode>,
    /// The metadata the vector was inserted with.
    pub metadata: Option<Metadata>,
    /// The insertion-sequence number: the tiebreaker between equal
    /// distances (lower wins).
    pub seq: u64,
}

/// The checks that building an index makes, in order.
pub open spec fn build_check(dim: usize, metric: Metric, cfg: IvfConfig) -> Result<(), IvfError> {
    if dim == 0 {
        Err(IvfError::InvalidConfig { reason: "IvfIndex dim must be greater than zero" })
    } else if validate_spec(cfg) is Err {
        validate_spec(cfg)
    } else if cfg.use_pq && !pq_supports_spec(metric) {
        Err(IvfError::InvalidMetric)
    } else if cfg.use_pq && (cfg.pq_subvectors.unwrap() == 0 || dim % cfg.pq_subvectors.unwrap() != 0) {
        Err(IvfError::InvalidConfig { reason: "IvfConfig.pq_subvectors must divide IvfIndex dim" })
    } else {
        Ok(())
    }
}

/// The metric is refused only by the product-quantization guard: an
/// IVF-Flat index accepts every metric once the dimension and the
/// configuration pass, its build checks do not depend on the metric, and
/// `InvalidMetric` only ever comes for a product-quantized index over a
/// metric the quantizer cannot score.
pub proof fn lemma_metric_refused_only_for_pq(dim: usize, metric: Metric, other: Metric, cfg: IvfConfig)
    ensures
        !cfg.use_pq && dim > 0 && validate_spec(cfg) is Ok ==> build_check(dim, metric, cfg) is Ok,
        !cfg.use_pq ==> build_check(dim, metric, cfg) == build_check(dim, other, cfg),
        build_check(dim, metric, cfg) == Err::<(), IvfError>(IvfError::InvalidMetric)
            ==> cfg.use_pq && metric != Metric::Euclidean && metric != Metric::DotProduct && metric != Metric::Manhattan,
{
    crate::config::lemma_validate_accepts_exactly_config_ok(cfg);
}

/// No two identifiers share a sequence number.
pub open spec fn seqs_distinct(m: Map<IdView, (usize, u64)>) -> bool {
    forall|a: IdView, b: IdView| m.contains_key(a) && m.contains_key(b) && a != b ==> #[trigger] m[a].1 != #[trigger] m[b].1
}

/// Every sequence number is below `bound`.
pub open spec fn seqs_below(m: Map<IdView, (usize, u64)>, bound: u64) -> bool {
    forall|a: IdView| m.contains_key(a) ==> #[trigger] m[a].1 < bound
}

/// The contents of a vector of vectors.
pub open spec fn nested_view<T>(v: Seq<Vec<T>>) -> Seq<Seq<T>> {
    Seq::new(v.len(), |i: int| v[i]@)
}

/// Entries in strictly ascending order of sequence number.
pub open spec fn seq_sorted<V>(es: Seq<Entry<V>>) -> bool {
    forall|i: int, j: int| 0 <= i < j < es.len() ==> (#[trigger] es[i]).seq < (#[trigger] es[j]).seq
}

/// No two entries share a sequence number.
pub open spec fn seqs_pairwise_distinct<V>(es: Seq<Entry<V>>) -> bool {
    forall|i: int, j: int| 0 <= i < j < es.len() ==> (#[trigger] es[i]).seq != (#[trigger] es[j]).seq
}

/// The entries of `v`, rearranged in ascending order of sequence number.
fn sort_by_seq<V>(v: Vec<Entry<V>>) -> (r: Vec<Entry<V>>)
    requires
        seqs_pairwise_distinct(v@),
    ensures
        r@.to_multiset() == v@.to_multiset(),
        seq_sorted(r@),
{
    let ghost orig = v@;
    let mut src = v;
    let mut out: Vec<Entry<V>> = Vec::new();
    assert(orig.skip(orig.len() as int) =~= out@);
    assert(src@ =~= orig.take(orig.len() as int));
    while src.len() > 0
        invariant
            src@ == orig.take(src@.len() as int),
            src@.len() <= orig.len(),
            seqs_pairwise_distinct(orig),
            out@.to_multiset() == orig.skip(src@.len() as int).to_multiset(),
            seq_sorted(out@),
        decreases src@.len(),
    {
        let ghost n = src@.len() as int;
        let e = match src.pop() {
            Some(e) => e,
            None => {
                proof {
                    assert(false);
                }
                return out;
            },
        };
        assert(e == orig[n - 1]);
        let mut pos: usize = 0;
        while pos < out.len() && out[pos].seq < e.seq
            invariant
                pos <= out@.len(),
                forall|q: int| 0 <= q < pos ==> (#[trigger] out@[q]).seq < e.seq,
            decreases out@.len() - pos,
        {
            pos = pos + 1;
        }
        let ghost before = out@;
        proof {
            // Every entry already placed comes from later in `orig`, so its
            // sequence number differs from that of `e`.
            let rest = orig.skip(n);
            assert forall|q: int| 0 <= q < before.len() implies (#[trigger] before[q]).seq != e.seq by {
                let x = before[q];
                assert(before.contains(x)) by {
                    assert(before[q] == x);
                }
                vstd::seq_lib::to_multiset_contains(before, x);
                vstd::seq_lib::to_multiset_contains(rest, x);
                assert(rest.to_multiset().count(x) > 0);
                assert(rest.contains(x));
                let j = choose|j: int| 0 <= j < rest.len() && rest[j] == x;
                assert(orig[n + j] == x);
            }
            if pos < before.len() {
                assert(before[pos as int].seq > e.seq);
            }
        }
        out.insert(pos, e);
        proof {
            assert forall|i: int, j: int| 0 <= i < j < out@.len() implies (#[trigger] out@[i]).seq < (#[trigger] out@[j]).seq by {
                if j < pos {
                    assert(out@[i] == before[i] && out@[j] == before[j]);
                } else if j == pos {
                    assert(out@[i] == before[i]);
                } else if i < pos {
                    assert(out@[i] == before[i] && out@[j] == before[j - 1]);
                    assert(before[pos as int].seq > e.seq);
                    if j - 1 > pos {
                        assert(before[pos as int].seq < before[j - 1].seq);
                    }
                } else if i == pos {
                    assert(out@[j] == before[j - 1]);
                    assert(before[pos as int].seq > e.seq);
                    if j - 1 > pos {
                        assert(before[pos as int].seq < before[j - 1].seq);
                    }
                } else {
                    assert(out@[i] == before[i - 1] && out@[j] == before[j - 1]);
                }
            }
            assert(orig.skip(n - 1) =~= orig.skip(n).insert(0, e));
            vstd::seq_lib::to_multiset_insert(before, pos as int, e);
            vstd::seq_lib::to_multiset_insert(orig.skip(n), 0, e);
            assert(src@ =~= orig.take(n - 1));
        }
    }
    proof {
        assert(orig.skip(0) =~= orig);
    }
    out
}

/// The inverted-file index.
pub struct IvfIndex<V> {
    dim: usize,
    metric: Metric,
    cfg: IvfConfig,
    trained: bool,
    centroids: Vec<V>,
    lists: Vec<Vec<Entry<V>>>,
    dir: IdDirectory,
    next_seq: u64,
    live_count: usize,
    pq: Option<ProductQuantizer>,
    contents: Ghost<Map<IdView, (usize, u64)>>,
}

impl<V> IvfIndex<V> {
    /// The dimension vectors must have.
    pub closed spec fn dim_spec(&self) -> usize {
        self.dim
    }

    /// The metric the index ranks by.
    pub closed spec fn metric_spec(&self) -> Metric {
        self.metric
    }

    /// The current configuration.
    pub closed spec fn config_spec(&self) -> IvfConfig {
        self.cfg
    }

    /// Whether the index has centroids.
    pub closed spec fn trained_spec(&self) -> bool {
        self.trained
    }

    /// Every live identifier, with the inverted list that holds it and its
    /// insertion-sequence number.
    pub closed spec fn contents(&self) -> Map<IdView, (usize, u64)> {
        self.contents@
    }

    /// The sequence number the next insert will take.
    pub closed spec fn next_seq_spec(&self) -> u64 {
        self.next_seq
    }

    /// The inverted lists.
    pub closed spec fn lists_spec(&self) -> Seq<Seq<Entry<V>>> {
        Seq::new(self.lists@.len(), |c: int| self.lists@[c]@)
    }

    /// The centroids (one vector handle per list once trained).
    pub closed spec fn centroids_spec(&self) -> Seq<V> {
        self.centroids@
    }

    /// Whether entries carry product-quantization codes: the index was
    /// built with `use_pq` and has been trained.
    pub closed spec fn quantizes(&self) -> bool {
        self.pq is Some
    }

    /// The trained product quantizer, when the index quantizes.
    pub closed spec fn quantizer_spec(&self) -> Option<ProductQuantizer> {
        self.pq
    }

    /// Whether `id` is live.
    pub open spec fn has(&self, id: IdView) -> bool {
        self.contents().contains_key(id)
    }

    /// The entry at position `p` of list `c` is recorded in the contents
    /// under its identifier, list and sequence number.
    closed spec fn entry_recorded(&self, c: int, p: int) -> bool {
        let e = self.lists@[c]@[p];
        &&& self.contents@.contains_key(e.id@)
        &&& self.contents@[e.id@] == (c as usize, e.seq)
        &&& e.seq < self.next_seq
        &&& (e.pq_code is Some <==> self.pq is Some)
    }

    /// Identifier `k` is stored in the list the contents name for it.
    closed spec fn key_stored(&self, k: IdView) -> bool {
        let c = self.contents@[k].0 as int;
        &&& 0 <= c < self.lists@.len()
        &&& exists|p: int| 0 <= p < self.lists@[c]@.len() && #[trigger] self.lists@[c]@[p].id@ == k
    }

    /// The index invariant.
    pub closed spec fn wf(&self) -> bool {
        &&& build_check(self.dim, self.metric, self.cfg) is Ok
        &&& self.lists@.len() == self.cfg.n_clusters
        &&& self.trained ==> self.centroids@.len() == self.cfg.n_clusters
        &&& !self.trained ==> self.centroids@.len() == 0 && self.contents@.dom() == Set::<IdView>::empty()
        &&& (self.pq is Some) == (self.trained && self.cfg.use_pq)
        &&& self.dir.wf()
        &&& self.dir.map() == self.contents@.map_values(|v: (usize, u64)| v.0)
        &&& self.contents@.dom().finite()
        &&& self.live_count == self.contents@.len()
        &&& seqs_distinct(self.contents@)
        &&& seqs_below(self.contents@, self.next_seq)
        &&& forall|c: int, p: int|
            0 <= c < self.lists@.len() && 0 <= p < self.lists@[c]@.len() ==> #[trigger] self.entry_recorded(c, p)
        &&& forall|k: IdView| #[trigger] self.contents@.contains_key(k) ==> self.key_stored(k)
        &&& forall|c: int, p1: int, p2: int|
            0 <= c < self.lists@.len() && 0 <= p1 < p2 < self.lists@[c]@.len()
                ==> #[trigger] self.lists@[c]@[p1].id@ != #[trigger] self.lists@[c]@[p2].id@
    }

    /// Build an empty, untrained index.
    ///
    /// Refused with [`IvfError::InvalidConfig`] when `dim == 0` or
    /// [`IvfConfig::validate`] rejects `cfg`; for a product-quantized index,
    /// with [`IvfError::InvalidMetric`] when the metric is not `Euclidean`,
    /// `DotProduct` or `Manhattan`, and with [`IvfError::InvalidConfig`] when
    /// `pq_subvectors` does not divide `dim`.
    pub fn new_unconfigured(dim: usize, metric: Metric, cfg: IvfConfig) -> (r: Result<Self, IvfError>)
        ensures
            match r {
                Ok(ix) => {
                    &&& build_check(dim, metric, cfg) is Ok
                    &&& ix.wf()
                    &&& ix.dim_spec() == dim
                    &&& ix.metric_spec() == metric
                    &&& ix.config_spec() == cfg
                    &&& !ix.trained_spec()
                    &&& ix.contents() == Map::<IdView, (usize, u64)>::empty()
                    &&& ix.next_seq_spec() == 0
                    &&& forall|c: int| 0 <= c < ix.lists_spec().len() ==> #[trigger] ix.lists_spec()[c].len() == 0
                },
                Err(e) => build_check(dim, metric, cfg) == Err::<(), IvfError>(e),
            },
    {
        if dim == 0 {
            return Err(IvfError::InvalidConfig { reason: "IvfIndex dim must be greater than zero" });
        }
        match cfg.validate() {
            Ok(()) => {},
            Err(e) => {
                return Err(e);
            },
        }
        if cfg.use_pq {
            if !metric.pq_supported() {
                return Err(IvfError::InvalidMetric);
            }
            let m = match cfg.pq_subvectors {
                Some(m) => m,
                None => 0,
            };
            if m == 0 || dim % m != 0 {
                return Err(IvfError::InvalidConfig { reason: "IvfConfig.pq_subvectors must divide IvfIndex dim" });
            }
        }
        let mut lists: Vec<Vec<Entry<V>>> = Vec::new();
        let mut i: usize = 0;
        while i < cfg.n_clusters
            invariant
                i <= cfg.n_clusters,
                lists@.len() == i,
                forall|c: int| 0 <= c < i ==> #[trigger] lists@[c]@.len() == 0,
            decreases cfg.n_clusters - i,
        {
            lists.push(Vec::new());
            i = i + 1;
        }
        let ix = IvfIndex {
            dim,
            metric,
            cfg,
            trained: false,
            centroids: Vec::new(),
            lists,
            dir: IdDirectory::new(),
            next_seq: 0,
            live_count: 0,
            pq: None,
            contents: Ghost(Map::empty()),
        };
        proof {
            assert(ix.dir.map() =~= ix.contents@.map_values(|v: (usize, u64)| v.0));
            assert(ix.contents@.dom() =~= Set::<IdView>::empty());
        }
        Ok(ix)
    }

    /// An index that differs from a well-formed one only in a configuration
    /// that still passes the build checks and keeps the cluster count and
    /// quantization switch is well formed.
    proof fn lemma_config_change_keeps_wf(a: &Self, b: &Self)
        requires
            a.wf(),
            build_check(b.dim, b.metric, b.cfg) is Ok,
            b.cfg.n_clusters == a.cfg.n_clusters,
            b.cfg.use_pq == a.cfg.use_pq,
            b.dim == a.dim,
            b.trained == a.trained,
            b.centroids@ == a.centroids@,
            b.lists@ == a.lists@,
            b.dir == a.dir,
            b.next_seq == a.next_seq,
            b.live_count == a.live_count,
            b.pq == a.pq,
            b.contents@ == a.contents@,
        ensures
            b.wf(),
    {
        assert forall|c: int, p: int|
            0 <= c < b.lists@.len() && 0 <= p < b.lists@[c]@.len() implies #[trigger] b.entry_recorded(c, p) by {
            assert(a.entry_recorded(c, p));
        }
        assert forall|k: IdView| #[trigger] b.contents@.contains_key(k) implies b.key_stored(k) by {
            assert(a.key_stored(k));
        }
    }

    /// The dimension the index was built for.
    pub fn dim(&self) -> (r: usize)
        ensures
            r == self.dim_spec(),
    {
        self.dim
    }

    /// The metric the index was built for.
    pub fn metric(&self) -> (r: Metric)
        ensures
            r == self.metric_spec(),
    {
        self.metric
    }

    /// The current configuration.
    pub fn config(&self) -> (r: &IvfConfig)
        ensures
            *r == self.config_spec(),
    {
        &self.cfg
    }

    /// Number of live vectors.
    pub fn len(&self) -> (r: usize)
        requires
            self.wf(),
        ensures
            r == self.contents().len(),
    {
        self.live_count
    }

    /// True when no vector is live.
    pub fn is_empty(&self) -> (r: bool)
        requires
            self.wf(),
        ensures
            r == (self.contents().len() == 0),
    {
        self.live_count == 0
    }

    /// True once [`Self::finish_training`] has installed centroids.
    pub fn is_trained(&self) -> (r: bool)
        ensures
            r == self.trained_spec(),
    {
        self.trained
    }

    /// The number of clusters scanned per query.
    pub fn n_probes(&self) -> (r: usize)
        ensures
            r == self.config_spec().n_probes,
    {
        self.cfg.n_probes
    }

    /// The product-quantization refine factor.
    pub fn pq_refine_factor(&self) -> (r: u32)
        ensures
            r == self.config_spec().pq_refine_factor,
    {
        self.cfg.pq_refine_factor
    }

    /// Whether `id` is live.
    pub fn contains(&self, id: &ItemId) -> (r: bool)
        requires
            self.wf(),
        ensures
            r == self.has(id@),
    {
        match self.dir.get(id) {
            Some(_) => true,
            None => false,
        }
    }

    /// What [`Self::set_n_probes`] answers for `n`.
    pub open spec fn set_n_probes_spec(&self, n: usize) -> Result<(), IvfError> {
        if n == 0 {
            Err(IvfError::InvalidConfig { reason: "IvfIndex::set_n_probes requires n >= 1" })
        } else if n > self.config_spec().n_clusters {
            Err(IvfError::InvalidConfig { reason: "IvfIndex::set_n_probes requires n <= n_clusters" })
        } else {
            Ok(())
        }
    }

    /// Change the number of clusters scanned per query.
    ///
    /// Refused with [`IvfError::InvalidConfig`] when `n == 0` or
    /// `n > n_clusters`; the index need not be trained.
    pub fn set_n_probes(&mut self, n: usize) -> (r: Result<(), IvfError>)
        requires
            old(self).wf(),
        ensures
            final(self).wf(),
            r == old(self).set_n_probes_spec(n),
            r is Ok ==> final(self).config_spec() == (IvfConfig { n_probes: n, ..old(self).config_spec() }),
            r is Err ==> final(self).config_spec() == old(self).config_spec(),
            final(self).contents() == old(self).contents(),
            final(self).lists_spec() == old(self).lists_spec(),
            final(self).trained_spec() == old(self).trained_spec(),
            final(self).dim_spec() == old(self).dim_spec(),
            final(self).metric_spec() == old(self).metric_spec(),
            final(self).centroids_spec() == old(self).centroids_spec(),
            final(self).quantizer_spec() == old(self).quantizer_spec(),
            final(self).next_seq_spec() == old(self).next_seq_spec(),
    {
        if n == 0 {
            return Err(IvfError::InvalidConfig { reason: "IvfIndex::set_n_probes requires n >= 1" });
        }
        if n > self.cfg.n_clusters {
            return Err(IvfError::InvalidConfig { reason: "IvfIndex::set_n_probes requires n <= n_clusters" });
        }
        let ghost before = *self;
        self.cfg.n_probes = n;
        proof {
            Self::lemma_config_change_keeps_wf(&before, self);
        }
        Ok(())
    }

    /// Change the product-quantization refine factor. Any value is legal;
    /// an index that does not quantize stores it and ignores it.
    pub fn set_pq_refine_factor(&mut self, factor: u32)
        requires
            old(self).wf(),
        ensures
            final(self).wf(),
            final(self).config_spec() == (IvfConfig { pq_refine_factor: factor, ..old(self).config_spec() }),
            final(self).contents() == old(self).contents(),
            final(self).lists_spec() == old(self).lists_spec(),
            final(self).trained_spec() == old(self).trained_spec(),
            final(self).dim_spec() == old(self).dim_spec(),
            final(self).metric_spec() == old(self).metric_spec(),
            final(self).centroids_spec() == old(self).centroids_spec(),
            final(self).quantizer_spec() == old(self).quantizer_spec(),
            final(self).next_seq_spec() == old(self).next_seq_spec(),
    {
        let ghost before = *self;
        self.cfg.pq_refine_factor = factor;
        proof {
            Self::lemma_config_change_keeps_wf(&before, self);
        }
    }

    /// Why an insert of `id` with a vector of `vector_len` components is
    /// refused before any change, if it is: the index is untrained, the
    /// length is not the dimension, the id is live, the sequence counter is
    /// exhausted, or the live count cannot grow.
    pub open spec fn insert_refusal(&self, id: IdView, vector_len: usize) -> Option<IvfError> {
        if !self.trained_spec() {
            Some(IvfError::InvalidConfig { reason: "IvfIndex must be trained before use" })
        } else if vector_len != self.dim_spec() {
            Some(IvfError::DimensionMismatch { expected: self.dim_spec(), found: vector_len })
        } else if self.has(id) {
            Some(IvfError::Duplicate)
        } else if self.next_seq_spec() == u64::MAX {
            Some(IvfError::InvalidConfig { reason: "IvfIndex insertion sequence counter overflowed u64" })
        } else if self.contents().len() >= usize::MAX {
            Some(IvfError::ResourceLimitExceeded { kind: "live vectors", max: usize::MAX, found: usize::MAX })
        } else {
            None
        }
    }

    /// Insert `vector` under `id`.
    ///
    /// `vector_len` is the number of components of `vector`; `sq_dists[c]`
    /// is the squared L2 distance (as an `f32` bit pattern) from the vector
    /// to centroid `c`, and `pq_code` the outcome of encoding the vector
    /// with the trained quantizer (`Ok(None)` when the index does not
    /// quantize). The vector goes to the list of its nearest centroid
    /// (lower index on ties) and takes the next sequence number.
    ///
    /// Refused, in this order, as [`Self::insert_refusal`] says; then an
    /// encoding error is returned after the sequence number was taken.
    pub fn insert(
        &mut self,
        id: ItemId,
        vector: V,
        vector_len: usize,
        metadata: Option<Metadata>,
        sq_dists: &[u32],
        pq_code: Result<Option<PqCode>, IvfError>,
    ) -> (r: Result<(), IvfError>)
        requires
            old(self).wf(),
            old(self).trained_spec() && vector_len == old(self).dim_spec()
                ==> sq_dists@.len() == old(self).config_spec().n_clusters,
            pq_code matches Ok(code) ==> (code is Some <==> old(self).quantizes()),
        ensures
            final(self).wf(),
            final(self).dim_spec() == old(self).dim_spec(),
            final(self).metric_spec() == old(self).metric_spec(),
            final(self).config_spec() == old(self).config_spec(),
            final(self).trained_spec() == old(self).trained_spec(),
            final(self).quantizes() == old(self).quantizes(),
            final(self).quantizer_spec() == old(self).quantizer_spec(),
            final(self).centroids_spec() == old(self).centroids_spec(),
            match old(self).insert_refusal(id@, vector_len) {
                Some(e) => {
                    &&& r == Err::<(), IvfError>(e)
                    &&& final(self).contents() == old(self).contents()
                    &&& final(self).lists_spec() == old(self).lists_spec()
                    &&& final(self).next_seq_spec() == old(self).next_seq_spec()
                },
                None => match pq_code {
                    Err(e) => {
                        &&& r == Err::<(), IvfError>(e)
                        &&& final(self).contents() == old(self).contents()
                        &&& final(self).lists_spec() == old(self).lists_spec()
                        &&& final(self).next_seq_spec() == old(self).next_seq_spec() + 1
                    },
                    Ok(code) => {
                        let c = nearest_index(sq_dists@) as int;
                        let seq = old(self).next_seq_spec();
                        &&& r == Ok::<(), IvfError>(())
                        &&& c < old(self).lists_spec().len()
                        &&& final(self).contents() == old(self).contents().insert(id@, (c as usize, seq))
                        &&& final(self).lists_spec() == old(self).lists_spec().update(c,
                            old(self).lists_spec()[c].push(Entry { id, vector, pq_code: code, metadata, seq }))
                        &&& final(self).next_seq_spec() == seq + 1
                    },
                },
            },
    {
        if !self.trained {
            return Err(IvfError::InvalidConfig { reason: "IvfIndex must be trained before use" });
        }
        if vector_len != self.dim {
            return Err(IvfError::DimensionMismatch { expected: self.dim, found: vector_len });
        }
        if self.contains(&id) {
            return Err(IvfError::Duplicate);
        }
        if self.next_seq == u64::MAX {
            return Err(IvfError::InvalidConfig { reason: "IvfIndex insertion sequence counter overflowed u64" });
        }
        if self.live_count == usize::MAX {
            return Err(IvfError::ResourceLimitExceeded { kind: "live vectors", max: usize::MAX, found: usize::MAX });
        }
        let ghost before = *self;
        let seq = self.next_seq;
        self.next_seq = seq + 1;
        let code = match pq_code {
            Ok(code) => code,
            Err(e) => {
                proof {
                    assert forall|c: int, p: int|
                        0 <= c < self.lists@.len() && 0 <= p < self.lists@[c]@.len() implies #[trigger] self.entry_recorded(c, p) by {
                        assert(before.entry_recorded(c, p));
                    }
                    assert forall|k: IdView| #[trigger] self.contents@.contains_key(k) implies self.key_stored(k) by {
                        assert(before.key_stored(k));
                    }
                    assert(self.lists_spec() =~= before.lists_spec());
                }
                return Err(e);
            },
        };
        let c = nearest_centroid(sq_dists);
        let ghost new_entry = Entry { id, vector, pq_code: code, metadata, seq };
        let ghost idv = id@;
        self.dir.insert(&id, c);
        let entry = Entry { id, vector, pq_code: code, metadata, seq };
        let ghost old_list = self.lists@[c as int]@;
        self.lists[c].push(entry);
        self.live_count = self.live_count + 1;
        self.contents = Ghost(self.contents@.insert(idv, (c, seq)));
        proof {
            let old_c = before.contents@;
            assert(!old_c.contains_key(idv));
            assert(self.lists@[c as int]@ == old_list.push(new_entry));
            assert forall|cc: int| 0 <= cc < self.lists@.len() && cc != c implies #[trigger] self.lists@[cc] == before.lists@[cc] by {}
            assert forall|cc: int, p: int|
                0 <= cc < self.lists@.len() && 0 <= p < self.lists@[cc]@.len() implies #[trigger] self.entry_recorded(cc, p) by {
                if cc == c && p == old_list.len() {
                } else {
                    assert(before.entry_recorded(cc, p));
                    if cc == c {
                        assert(self.lists@[cc]@[p] == old_list[p]);
                    }
                    assert(self.lists@[cc]@[p] == before.lists@[cc]@[p]);
                    assert(before.lists@[cc]@[p].id@ != idv);
                }
            }
            assert forall|k: IdView| #[trigger] self.contents@.contains_key(k) implies self.key_stored(k) by {
                if k == idv {
                    assert(self.lists@[c as int]@[old_list.len() as int].id@ == k);
                } else {
                    assert(before.key_stored(k));
                    let cc = before.contents@[k].0 as int;
                    let p = choose|p: int| 0 <= p < before.lists@[cc]@.len() && #[trigger] before.lists@[cc]@[p].id@ == k;
                    if cc == c {
                        assert(self.lists@[cc]@[p] == old_list[p]);
                    }
                    assert(self.lists@[cc]@[p].id@ == k);
                }
            }
            assert forall|cc: int, p1: int, p2: int|
                0 <= cc < self.lists@.len() && 0 <= p1 < p2 < self.lists@[cc]@.len()
                    implies #[trigger] self.lists@[cc]@[p1].id@ != #[trigger] self.lists@[cc]@[p2].id@ by {
                if cc == c {
                    assert(self.lists@[cc]@[p1] == old_list[p1]);
                    if p2 == old_list.len() {
                        assert(before.entry_recorded(cc, p1));
                    } else {
                        assert(self.lists@[cc]@[p2] == old_list[p2]);
                    }
                }
            }
            assert(self.dir.map() =~= self.contents@.map_values(|v: (usize, u64)| v.0));
            assert(self.lists_spec() =~= before.lists_spec().update(c as int, before.lists_spec()[c as int].push(new_entry)));
        }
        Ok(())
    }

    /// Deleting the identifier that an insert has just made live undoes the
    /// insert: the inserted entry is the last of its list, so the
    /// swap-remove takes it off the end, and every inverted list (entry for
    /// entry, in order), every list size and the live identifiers with
    /// their lists and sequence numbers are those from before the insert.
    ///
    /// `a` is the index before the insert of `e` into list `x`, `b` the index
    /// after it, and `c` the index after `delete` removed the identifier
    /// again, each step as the contracts of `insert` and `delete` state it.
    pub proof fn lemma_delete_undoes_insert(a: &Self, b: &Self, c: &Self, id: IdView, e: Entry<V>, x: int)
        requires
            a.wf(),
            b.wf(),
            !a.has(id),
            e.id@ == id,
            0 <= x < a.lists_spec().len(),
            b.contents() == a.contents().insert(id, (x as usize, e.seq)),
            b.lists_spec() == a.lists_spec().update(x, a.lists_spec()[x].push(e)),
            c.contents() == b.contents().remove(id),
            exists|p: int|
                0 <= p < b.lists_spec()[x].len() && #[trigger] b.lists_spec()[x][p].id@ == id
                    && c.lists_spec() == b.lists_spec().update(x, b.lists_spec()[x].update(p, b.lists_spec()[x].last()).drop_last()),
        ensures
            c.lists_spec() == a.lists_spec(),
            c.list_sizes() == a.list_sizes(),
            c.contents() == a.contents(),
            !c.has(id),
    {
        let before = a.lists_spec()[x];
        let list = b.lists_spec()[x];
        let n = before.len() as int;
        assert(list == before.push(e));
        let p = choose|p: int|
            0 <= p < b.lists_spec()[x].len() && #[trigger] b.lists_spec()[x][p].id@ == id
                && c.lists_spec() == b.lists_spec().update(x, b.lists_spec()[x].update(p, b.lists_spec()[x].last()).drop_last());
        assert(list[n] == e);
        if p != n {
            b.lemma_entries_distinct(x, p, x, n);
        }
        assert(list.update(p, list.last()).drop_last() =~= before);
        assert(c.lists_spec() =~= a.lists_spec());
        assert(c.contents() =~= a.contents());
        a.lemma_list_sizes();
        c.lemma_list_sizes();
        assert(c.list_sizes() =~= a.list_sizes());
    }

    /// Position of `id` in list `c`.
    fn position_in_list(&self, c: usize, id: &ItemId) -> (r: Option<usize>)
        requires
            c < self.lists@.len(),
        ensures
            match r {
                Some(p) => p < self.lists@[c as int]@.len() && self.lists@[c as int]@[p as int].id@ == id@,
                None => forall|p: int| 0 <= p < self.lists@[c as int]@.len() ==> #[trigger] self.lists@[c as int]@[p].id@ != id@,
            },
    {
        let list = &self.lists[c];
        let mut p: usize = 0;
        while p < list.len()
            invariant
                p <= list@.len(),
                list@ == self.lists@[c as int]@,
                forall|q: int| 0 <= q < p ==> #[trigger] list@[q].id@ != id@,
            decreases list@.len() - p,
        {
            if list[p].id.equals(id) {
                return Some(p);
            }
            p = p + 1;
        }
        None
    }

    /// Remove `id` from the index: its entry is swap-removed from its list.
    ///
    /// Refused with [`IvfError::NotFound`] when `id` is not live (always the
    /// case before training).
    pub fn delete(&mut self, id: &ItemId) -> (r: Result<(), IvfError>)
        requires
            old(self).wf(),
        ensures
            final(self).wf(),
            final(self).dim_spec() == old(self).dim_spec(),
            final(self).metric_spec() == old(self).metric_spec(),
            final(self).config_spec() == old(self).config_spec(),
            final(self).trained_spec() == old(self).trained_spec(),
            final(self).quantizes() == old(self).quantizes(),
            final(self).quantizer_spec() == old(self).quantizer_spec(),
            final(self).centroids_spec() == old(self).centroids_spec(),
            final(self).next_seq_spec() == old(self).next_seq_spec(),
            !old(self).has(id@) ==> {
                &&& r == Err::<(), IvfError>(IvfError::NotFound)
                &&& final(self).contents() == old(self).contents()
                &&& final(self).lists_spec() == old(self).lists_spec()
            },
            old(self).has(id@) ==> {
                let c = old(self).contents()[id@].0 as int;
                let list = old(self).lists_spec()[c];
                &&& r == Ok::<(), IvfError>(())
                &&& final(self).contents() == old(self).contents().remove(id@)
                &&& exists|p: int| 0 <= p < list.len() && #[trigger] list[p].id@ == id@
                    && final(self).lists_spec() == old(self).lists_spec().update(c, list.update(p, list.last()).drop_last())
            },
    {
        let ghost before = *self;
        let ghost idv = id@;
        let c = match self.dir.remove(id) {
            Some(c) => c,
            None => {
                proof {
                    assert(!before.contents@.contains_key(idv)) by {
                        if before.contents@.contains_key(idv) {
                            assert(before.dir.map().contains_key(idv));
                        }
                    }
                    assert forall|cc: int, p: int|
                        0 <= cc < self.lists@.len() && 0 <= p < self.lists@[cc]@.len() implies #[trigger] self.entry_recorded(cc, p) by {
                        assert(before.entry_recorded(cc, p));
                    }
                    assert forall|k: IdView| #[trigger] self.contents@.contains_key(k) implies self.key_stored(k) by {
                        assert(before.key_stored(k));
                    }
                }
                return Err(IvfError::NotFound);
            },
        };
        proof {
            assert(before.dir.map().contains_key(idv));
            assert(before.contents@.contains_key(idv));
            assert(before.key_stored(idv));
        }
        let pos = match self.position_in_list(c, id) {
            Some(p) => p,
            None => {
                proof {
                    let w = choose|p: int| 0 <= p < before.lists@[c as int]@.len() && #[trigger] before.lists@[c as int]@[p].id@ == idv;
                    assert(self.lists@[c as int]@[w].id@ != idv);
                }
                return Err(IvfError::NotFound);
            },
        };
        let ghost old_list = self.lists@[c as int]@;
        let _removed = self.lists[c].swap_remove(pos);
        self.live_count = self.live_count - 1;
        self.contents = Ghost(self.contents@.remove(idv));
        proof {
            let last = old_list.len() - 1;
            let new_list = old_list.update(pos as int, old_list.last()).drop_last();
            assert(self.lists@[c as int]@ == new_list);
            assert forall|cc: int| 0 <= cc < self.lists@.len() && cc != c implies #[trigger] self.lists@[cc] == before.lists@[cc] by {}
            // The removed entry was the only one with this identifier.
            assert forall|cc: int, p: int|
                0 <= cc < self.lists@.len() && 0 <= p < self.lists@[cc]@.len() implies #[trigger] self.entry_recorded(cc, p) by {
                if cc == c {
                    let op = if p == pos { last } else { p };
                    assert(self.lists@[cc]@[p] == old_list[op]);
                    assert(before.entry_recorded(cc, op));
                    if op < pos {
                        assert(old_list[op].id@ != old_list[pos as int].id@);
                    } else if op > pos {
                        assert(old_list[pos as int].id@ != old_list[op].id@);
                    }
                } else {
                    assert(before.entry_recorded(cc, p));
                    assert(before.contents@[before.lists@[cc]@[p].id@].0 == cc);
                }
            }
            assert forall|k: IdView| #[trigger] self.contents@.contains_key(k) implies self.key_stored(k) by {
                assert(before.key_stored(k));
                let cc = before.contents@[k].0 as int;
                let w = choose|w: int| 0 <= w < before.lists@[cc]@.len() && #[trigger] before.lists@[cc]@[w].id@ == k;
                if cc == c {
                    assert(w != pos);
                    if w == last {
                        assert(self.lists@[cc]@[pos as int].id@ == k);
                    } else {
                        assert(self.lists@[cc]@[w].id@ == k);
                    }
                } else {
                    assert(self.lists@[cc]@[w].id@ == k);
                }
            }
            assert forall|cc: int, p1: int, p2: int|
                0 <= cc < self.lists@.len() && 0 <= p1 < p2 < self.lists@[cc]@.len()
                    implies #[trigger] self.lists@[cc]@[p1].id@ != #[trigger] self.lists@[cc]@[p2].id@ by {
                if cc == c {
                    let o1 = if p1 == pos { last } else { p1 };
                    let o2 = if p2 == pos { last } else { p2 };
                    assert(self.lists@[cc]@[p1] == old_list[o1]);
                    assert(self.lists@[cc]@[p2] == old_list[o2]);
                    if o1 < o2 {
                        assert(old_list[o1].id@ != old_list[o2].id@);
                    } else {
                        assert(old_list[o2].id@ != old_list[o1].id@);
                    }
                }
            }
            assert(self.dir.map() =~= self.contents@.map_values(|v: (usize, u64)| v.0));
            assert(self.lists_spec() =~= before.lists_spec().update(c as int, new_list));
            assert(before.lists_spec()[c as int] == old_list);
            assert(old_list[pos as int].id@ == idv);
            assert(before.contents@[idv].0 == c);
        }
        Ok(())
    }

    /// The number of live vectors in each list.
    pub closed spec fn list_sizes(&self) -> Seq<usize> {
        Seq::new(self.lists@.len(), |c: int| self.lists@[c].len())
    }

    /// There is one size per inverted list, and size `c` is the number of
    /// entries in list `c`.
    pub proof fn lemma_list_sizes(&self)
        ensures
            self.list_sizes().len() == self.lists_spec().len(),
            forall|c: int| 0 <= c < self.lists_spec().len() ==> #[trigger] self.list_sizes()[c] == self.lists_spec()[c].len(),
    {
        assert forall|c: int| 0 <= c < self.lists_spec().len() implies #[trigger] self.list_sizes()[c] == self.lists_spec()[c].len() by {
            assert(self.lists@[c].len() == self.lists@[c]@.len());
        }
    }

    /// The live count of every list, in list order.
    fn sizes(&self) -> (r: Vec<usize>)
        ensures
            r@ == self.list_sizes(),
    {
        let mut out: Vec<usize> = Vec::new();
        let mut c: usize = 0;
        while c < self.lists.len()
            invariant
                c <= self.lists@.len(),
                out@ =~= Seq::new(c as nat, |j: int| self.lists@[j].len()),
            decreases self.lists@.len() - c,
        {
            out.push(self.lists[c].len());
            c = c + 1;
        }
        out
    }

    /// Occupancy snapshot: the configured cluster count and, once trained,
    /// the live count of every list (empty before training). Once trained
    /// there is one size per cluster, they add up to the number of live
    /// vectors, and all are zero while nothing is live.
    pub fn cluster_stats(&self) -> (r: IvfClusterStats)
        requires
            self.wf(),
        ensures
            r.n_clusters == self.config_spec().n_clusters,
            r.cluster_sizes@ == if self.trained_spec() { self.list_sizes() } else { Seq::<usize>::empty() },
            self.trained_spec() ==> {
                &&& r.cluster_sizes@.len() == self.config_spec().n_clusters
                &&& forall|c: int| 0 <= c < r.cluster_sizes@.len() ==> #[trigger] r.cluster_sizes@[c] == self.lists_spec()[c].len()
                &&& prefix_sum(r.cluster_sizes@, r.cluster_sizes@.len()) == self.contents().len()
                &&& self.contents().len() == 0 ==> forall|c: int| 0 <= c < r.cluster_sizes@.len() ==> #[trigger] r.cluster_sizes@[c] == 0
            },
    {
        let sizes = if self.trained { self.sizes() } else { Vec::new() };
        proof {
            self.lemma_wf_lists();
            self.lemma_list_sizes();
            self.lemma_sizes_sum_to_len();
        }
        IvfClusterStats { n_clusters: self.cfg.n_clusters, cluster_sizes: sizes }
    }

    /// What [`Self::suggest_n_probes`] answers for a coverage whose `f32`
    /// bit pattern is `coverage` and whose target count is `target`.
    pub open spec fn suggest_spec(&self, coverage: u32, target: usize) -> Result<usize, IvfError> {
        if !(coverage <= 0x3F80_0000u32 || coverage == 0x8000_0000u32) {
            Err(IvfError::InvalidConfig { reason: "IvfIndex::suggest_n_probes requires coverage in [0.0, 1.0]" })
        } else if !self.trained_spec() || self.contents().len() == 0 || self.config_spec().n_clusters == 1 {
            Ok(1)
        } else if is_zero_spec(coverage) {
            Ok(1)
        } else if coverage == 0x3F80_0000u32 {
            Ok(self.config_spec().n_clusters)
        } else {
            Ok(cover_count(sizes_desc(self.list_sizes()), target as int) as usize)
        }
    }

    /// Recommend a probe count: the number of largest lists whose live
    /// counts add up to `target`, the caller's `ceil(len() * coverage)`.
    ///
    /// `coverage` is the bit pattern of an `f32` that must be finite and in
    /// `[0.0, 1.0]`, else [`IvfError::InvalidConfig`]. An untrained or empty
    /// index, a single cluster, and a zero coverage give `1`; full coverage
    /// gives `n_clusters`.
    pub fn suggest_n_probes(&self, coverage: u32, target: usize) -> (r: Result<usize, IvfError>)
        requires
            self.wf(),
        ensures
            r == self.suggest_spec(coverage, target),
            r matches Ok(n) ==> 1 <= n <= self.config_spec().n_clusters,
    {
        if !(coverage <= 0x3F80_0000u32 || coverage == 0x8000_0000u32) {
            return Err(IvfError::InvalidConfig { reason: "IvfIndex::suggest_n_probes requires coverage in [0.0, 1.0]" });
        }
        if !self.trained || self.live_count == 0 || self.cfg.n_clusters == 1 {
            return Ok(1);
        }
        if coverage % 0x8000_0000u32 == 0 {
            return Ok(1);
        }
        if coverage == 0x3F80_0000u32 {
            return Ok(self.cfg.n_clusters);
        }
        let sizes = self.sizes();
        let desc = sort_sizes_desc(&sizes);
        let n = count_to_cover(&desc, target);
        proof {
            sizes@.lemma_sort_by_ensures(crate::probes::desc_order());
            crate::probes::lemma_desc_order_total();
            assert(desc@.len() == sizes@.len()) by {
                vstd::seq_lib::to_multiset_len(desc@);
                vstd::seq_lib::to_multiset_len(sizes@);
            }
            crate::probes::lemma_cover_from_bounds(desc@, target as int, 0);
        }
        Ok(n)
    }

    /// The order of accepted coverages by value: both zeros come first, then
    /// positive values in the order of their bit patterns.
    pub open spec fn coverage_key(coverage: u32) -> u32 {
        if coverage == 0x8000_0000u32 { 0 } else { coverage }
    }

    /// The recommendation never shrinks as the coverage and its target grow:
    /// for accepted coverages `c1 <= c2` and targets `t1 <= t2`, both calls
    /// succeed and the first recommends at most as many probes as the
    /// second.
    pub proof fn lemma_suggest_monotone(&self, c1: u32, t1: usize, c2: u32, t2: usize)
        requires
            self.wf(),
            c1 <= 0x3F80_0000u32 || c1 == 0x8000_0000u32,
            c2 <= 0x3F80_0000u32 || c2 == 0x8000_0000u32,
            Self::coverage_key(c1) <= Self::coverage_key(c2),
            t1 <= t2,
        ensures
            self.suggest_spec(c1, t1) is Ok,
            self.suggest_spec(c2, t2) is Ok,
            self.suggest_spec(c1, t1)->Ok_0 <= self.suggest_spec(c2, t2)->Ok_0,
    {
        self.lemma_wf_lists();
        let sd = sizes_desc(self.list_sizes());
        self.list_sizes().lemma_sort_by_ensures(crate::probes::desc_order());
        crate::probes::lemma_desc_order_total();
        assert(sd.len() == self.list_sizes().len()) by {
            vstd::seq_lib::to_multiset_len(sd);
            vstd::seq_lib::to_multiset_len(self.list_sizes());
        }
        crate::probes::lemma_cover_from_bounds(sd, t1 as int, 0);
        crate::probes::lemma_cover_from_bounds(sd, t2 as int, 0);
        crate::probes::lemma_cover_from_monotone(sd, t1 as int, t2 as int, 0);
    }

    /// The recommended probes cover the target: the largest lists, as many
    /// as recommended, hold at least `target` live vectors, for a target no
    /// larger than the live count (and zero for a zero coverage).
    pub proof fn lemma_suggest_covers(&self, coverage: u32, target: usize)
        requires
            self.wf(),
            self.suggest_spec(coverage, target) is Ok,
            target <= self.contents().len(),
            is_zero_spec(coverage) ==> target == 0,
        ensures
            prefix_sum(sizes_desc(self.list_sizes()), self.suggest_spec(coverage, target)->Ok_0 as nat) >= target,
    {
        self.lemma_wf_lists();
        self.lemma_sizes_sum_to_len();
        let ls = self.list_sizes();
        let sd = sizes_desc(ls);
        ls.lemma_sort_by_ensures(crate::probes::desc_order());
        crate::probes::lemma_desc_order_total();
        assert(sd.len() == ls.len()) by {
            vstd::seq_lib::to_multiset_len(sd);
            vstd::seq_lib::to_multiset_len(ls);
        }
        crate::probes::lemma_total_permutation(sd, ls);
        let n = self.suggest_spec(coverage, target)->Ok_0;
        crate::probes::lemma_prefix_sum_nonneg(sd, n as nat);
        if !self.trained_spec() || self.contents().len() == 0 {
        } else if self.config_spec().n_clusters == 1 {
            assert(n == 1);
        } else if is_zero_spec(coverage) {
        } else if coverage == 0x3F80_0000u32 {
        } else {
            crate::probes::lemma_cover_from_reaches(sd, target as int, 0);
        }
    }

    /// The recommendation is the smallest count that does the job: for a
    /// coverage strictly between zero and one on a trained index with live
    /// vectors and several lists, the largest lists, one fewer than
    /// recommended, hold fewer than `target` live vectors.
    pub proof fn lemma_suggest_minimal(&self, coverage: u32, target: usize)
        requires
            self.wf(),
            self.trained_spec(),
            self.contents().len() > 0,
            self.config_spec().n_clusters > 1,
            coverage < 0x3F80_0000u32,
            !is_zero_spec(coverage),
        ensures
            self.suggest_spec(coverage, target) is Ok,
            1 <= self.suggest_spec(coverage, target)->Ok_0,
            self.suggest_spec(coverage, target)->Ok_0 == 1
                || prefix_sum(sizes_desc(self.list_sizes()), (self.suggest_spec(coverage, target)->Ok_0 - 1) as nat) < target,
    {
        self.lemma_wf_lists();
        let ls = self.list_sizes();
        let sd = sizes_desc(ls);
        ls.lemma_sort_by_ensures(crate::probes::desc_order());
        crate::probes::lemma_desc_order_total();
        assert(sd.len() == ls.len()) by {
            vstd::seq_lib::to_multiset_len(sd);
            vstd::seq_lib::to_multiset_len(ls);
        }
        self.lemma_list_sizes();
        crate::probes::lemma_cover_from_bounds(sd, target as int, 0);
        crate::probes::lemma_cover_from_minimal(sd, target as int, 0);
    }

    /// A recommended probe count is always accepted by
    /// [`Self::set_n_probes`].
    pub proof fn lemma_suggestion_is_accepted(&self, coverage: u32, target: usize)
        requires
            self.wf(),
            self.suggest_spec(coverage, target) is Ok,
        ensures
            self.set_n_probes_spec(self.suggest_spec(coverage, target)->Ok_0) is Ok,
    {
        self.lemma_wf_lists();
        let sd = sizes_desc(self.list_sizes());
        self.list_sizes().lemma_sort_by_ensures(crate::probes::desc_order());
        crate::probes::lemma_desc_order_total();
        assert(sd.len() == self.list_sizes().len()) by {
            vstd::seq_lib::to_multiset_len(sd);
            vstd::seq_lib::to_multiset_len(self.list_sizes());
        }
        crate::probes::lemma_cover_from_bounds(sd, target as int, 0);
    }

    /// Start training on a sample whose vectors have the lengths `lens`:
    /// refuse an index that is already trained, run the sample pre-checks,
    /// and pick the k-means working set (see
    /// [`crate::train::plan_training_set`]) with a generator seeded by the
    /// configured seed.
    pub fn begin_training(&self, lens: &[usize]) -> (r: Result<(Vec<usize>, SplitMix64), IvfError>)
        requires
            self.wf(),
        ensures
            self.trained_spec() ==> r == Err::<(Vec<usize>, SplitMix64), IvfError>(IvfError::InvalidConfig {
                reason: "IvfIndex is already trained; use retrain() to rebuild centroids" }),
            !self.trained_spec() ==> match r {
                Ok((w, rng)) => {
                    let n = lens@.len();
                    let cap = self.config_spec().training_sample_size;
                    &&& training_sample_check(self.dim_spec(), self.config_spec().n_clusters, lens@) is Ok
                    &&& w@.len() == if cap < n { cap as nat } else { n }
                    &&& forall|j: int| 0 <= j < w@.len() ==> #[trigger] w@[j] < n
                    &&& forall|a: int, b: int| 0 <= a < b < w@.len() ==> #[trigger] w@[a] != #[trigger] w@[b]
                    &&& w@ == subsample_spec(n, cap as nat, self.config_spec().seed)
                    &&& rng.state() == subsample_state(n, cap as nat, self.config_spec().seed)
                },
                Err(e) => training_sample_check(self.dim_spec(), self.config_spec().n_clusters, lens@)
                    == Err::<(), IvfError>(e),
            },
    {
        if self.trained {
            return Err(IvfError::InvalidConfig { reason: "IvfIndex is already trained; use retrain() to rebuild centroids" });
        }
        plan_training_set(self.dim, self.cfg.n_clusters, self.cfg.seed, lens, self.cfg.training_sample_size)
    }

    /// Install the trained centroids (one per list) and, for an index that
    /// quantizes, the trained quantizer. The index is trained afterwards
    /// and still empty.
    pub fn finish_training(&mut self, centroids: Vec<V>, pq: Option<ProductQuantizer>)
        requires
            old(self).wf(),
            !old(self).trained_spec(),
            centroids@.len() == old(self).config_spec().n_clusters,
            pq is Some <==> old(self).config_spec().use_pq,
        ensures
            final(self).wf(),
            final(self).trained_spec(),
            final(self).quantizes() == old(self).config_spec().use_pq,
            final(self).quantizer_spec() == pq,
            final(self).centroids_spec() == centroids@,
            final(self).dim_spec() == old(self).dim_spec(),
            final(self).metric_spec() == old(self).metric_spec(),
            final(self).config_spec() == old(self).config_spec(),
            final(self).contents() == old(self).contents(),
            final(self).lists_spec() == old(self).lists_spec(),
            final(self).next_seq_spec() == old(self).next_seq_spec(),
    {
        let ghost before = *self;
        self.centroids = centroids;
        self.pq = pq;
        self.trained = true;
        proof {
            assert forall|c: int, p: int|
                0 <= c < self.lists@.len() && 0 <= p < self.lists@[c]@.len() implies #[trigger] self.entry_recorded(c, p) by {
                assert(before.entry_recorded(c, p));
                assert(before.contents@.contains_key(before.lists@[c]@[p].id@));
            }
            assert forall|k: IdView| #[trigger] self.contents@.contains_key(k) implies self.key_stored(k) by {
                assert(before.key_stored(k));
            }
            assert(self.lists_spec() =~= before.lists_spec());
        }
    }

    /// What a well-formed index guarantees about its lists: one list per
    /// cluster; every stored entry is live, recorded under its own list and
    /// sequence number, and carries a code exactly when the index
    /// quantizes; identifiers within a list are distinct; every live
    /// identifier is stored in the list recorded for it.
    pub proof fn lemma_wf_lists(&self)
        requires
            self.wf(),
        ensures
            self.lists_spec().len() == self.config_spec().n_clusters,
            config_ok(self.config_spec()),
            self.config_spec().n_clusters >= 1,
            1 <= self.config_spec().n_probes <= self.config_spec().n_clusters,
            self.trained_spec() ==> self.centroids_spec().len() == self.config_spec().n_clusters,
            !self.trained_spec() ==> self.contents().len() == 0,
            self.quantizes() == (self.trained_spec() && self.config_spec().use_pq),
            self.contents().dom().finite(),
            self.contents().len() <= usize::MAX,
            forall|c: int| 0 <= c < self.lists_spec().len() ==> #[trigger] self.lists_spec()[c].len() <= usize::MAX,
            self.contents().len() == 0 ==> forall|c: int| 0 <= c < self.lists_spec().len() ==> #[trigger] self.lists_spec()[c].len() == 0,
            forall|c: int, p: int|
                0 <= c < self.lists_spec().len() && 0 <= p < self.lists_spec()[c].len() ==> {
                    let e = #[trigger] self.lists_spec()[c][p];
                    &&& self.has(e.id@)
                    &&& self.contents()[e.id@] == (c as usize, e.seq)
                    &&& e.seq < self.next_seq_spec()
                    &&& (e.pq_code is Some <==> self.quantizes())
                },
            forall|c: int, p1: int, p2: int|
                0 <= c < self.lists_spec().len() && 0 <= p1 < p2 < self.lists_spec()[c].len()
                    ==> #[trigger] self.lists_spec()[c][p1].id@ != #[trigger] self.lists_spec()[c][p2].id@,
            forall|k: IdView| #[trigger] self.has(k) ==> {
                let c = self.contents()[k].0 as int;
                &&& 0 <= c < self.lists_spec().len()
                &&& exists|p: int| 0 <= p < self.lists_spec()[c].len() && #[trigger] self.lists_spec()[c][p].id@ == k
            },
    {
        assert forall|c: int, p: int|
            0 <= c < self.lists_spec().len() && 0 <= p < self.lists_spec()[c].len() implies {
                let e = #[trigger] self.lists_spec()[c][p];
                &&& self.has(e.id@)
                &&& self.contents()[e.id@] == (c as usize, e.seq)
                &&& e.seq < self.next_seq_spec()
                &&& (e.pq_code is Some <==> self.quantizes())
            } by {
            assert(self.entry_recorded(c, p));
        }
        assert forall|k: IdView| #[trigger] self.has(k) implies {
                let c = self.contents()[k].0 as int;
                &&& 0 <= c < self.lists_spec().len()
                &&& exists|p: int| 0 <= p < self.lists_spec()[c].len() && #[trigger] self.lists_spec()[c][p].id@ == k
            } by {
            assert(self.key_stored(k));
            let c = self.contents()[k].0 as int;
            let p = choose|p: int| 0 <= p < self.lists@[c]@.len() && #[trigger] self.lists@[c]@[p].id@ == k;
            assert(self.lists_spec()[c][p].id@ == k);
        }
        crate::config::lemma_validate_accepts_exactly_config_ok(self.cfg);
        assert forall|c: int| 0 <= c < self.lists_spec().len() implies #[trigger] self.lists_spec()[c].len() <= usize::MAX by {
            assert(self.lists@[c].len() == self.lists@[c]@.len());
        }
        if !self.trained {
            assert(self.contents@.dom() =~= Set::<IdView>::empty());
        }
        if self.contents().len() == 0 {
            assert forall|c: int| 0 <= c < self.lists_spec().len() implies #[trigger] self.lists_spec()[c].len() == 0 by {
                if self.lists_spec()[c].len() > 0 {
                    assert(self.entry_recorded(c, 0));
                    self.contents@.dom().lemma_len0_is_empty();
                    assert(self.contents@.dom().contains(self.lists@[c]@[0].id@));
                }
            }
        }
    }

    /// Entries at two different addresses have different identifiers and
    /// different sequence numbers.
    pub proof fn lemma_entries_distinct(&self, c1: int, p1: int, c2: int, p2: int)
        requires
            self.wf(),
            0 <= c1 < self.lists_spec().len(),
            0 <= p1 < self.lists_spec()[c1].len(),
            0 <= c2 < self.lists_spec().len(),
            0 <= p2 < self.lists_spec()[c2].len(),
            c1 != c2 || p1 != p2,
        ensures
            self.lists_spec()[c1][p1].id@ != self.lists_spec()[c2][p2].id@,
            self.lists_spec()[c1][p1].seq != self.lists_spec()[c2][p2].seq,
    {
        assert(self.entry_recorded(c1, p1));
        assert(self.entry_recorded(c2, p2));
        let e1 = self.lists_spec()[c1][p1];
        let e2 = self.lists_spec()[c2][p2];
        if e1.id@ == e2.id@ {
            if p1 < p2 {
                assert(self.lists@[c1]@[p1].id@ != self.lists@[c1]@[p2].id@);
            } else {
                assert(self.lists@[c1]@[p2].id@ != self.lists@[c1]@[p1].id@);
            }
        }
        assert(self.contents@[e1.id@].1 != self.contents@[e2.id@].1);
    }

    /// List `c`.
    pub fn list(&self, c: usize) -> (r: &Vec<Entry<V>>)
        requires
            c < self.lists_spec().len(),
        ensures
            r@ == self.lists_spec()[c as int],
    {
        &self.lists[c]
    }

    /// The entry at position `p` of list `c`.
    pub fn entry(&self, c: usize, p: usize) -> (r: &Entry<V>)
        requires
            c < self.lists_spec().len(),
            p < self.lists_spec()[c as int].len(),
        ensures
            *r == self.lists_spec()[c as int][p as int],
    {
        &self.lists[c][p]
    }

    /// The centroids (one per list once trained, none before).
    pub fn centroids(&self) -> (r: &Vec<V>)
        ensures
            r@ == self.centroids_spec(),
    {
        &self.centroids
    }

    /// The trained product quantizer, when the index quantizes.
    pub fn quantizer(&self) -> (r: &Option<ProductQuantizer>)
        ensures
            *r == self.quantizer_spec(),
            r is Some <==> self.quantizes(),
    {
        &self.pq
    }

    /// `moved` sends the identifier of `e` to the nearest of the squared
    /// distances `d`, with `e`'s sequence number.
    pub open spec fn placed(moved: Map<IdView, (usize, u64)>, e: Entry<V>, d: Seq<u32>) -> bool {
        &&& moved.contains_key(e.id@)
        &&& moved[e.id@] == (nearest_index(d) as usize, e.seq)
    }

    /// The entry at `(c, p)` of `lists` with its code replaced by
    /// `codes[c][p]`.
    pub open spec fn recoded(lists: Seq<Seq<Entry<V>>>, codes: Seq<Seq<Option<PqCode>>>, c: int, p: int) -> Entry<V> {
        Entry { pq_code: codes[c][p], ..lists[c][p] }
    }

    /// `lists` holds the entries of `ol`, recoded with `oc`, each in the
    /// list `moved` records for its identifier and once only.
    spec fn rebuilt(
        moved: Map<IdView, (usize, u64)>,
        lists: Seq<Vec<Entry<V>>>,
        ol: Seq<Seq<Entry<V>>>,
        oc: Seq<Seq<Option<PqCode>>>,
        use_pq: bool,
        next_seq: u64,
    ) -> bool {
        &&& forall|x: int, q: int| 0 <= x < lists.len() && 0 <= q < lists[x]@.len() ==> {
            let e = #[trigger] lists[x]@[q];
            &&& moved.contains_key(e.id@)
            &&& moved[e.id@] == (x as usize, e.seq)
            &&& e.seq < next_seq
            &&& (e.pq_code is Some <==> use_pq)
            &&& exists|cc: int, p: int| 0 <= cc < ol.len() && 0 <= p < ol[cc].len()
                && #[trigger] Self::recoded(ol, oc, cc, p) == e
        }
        &&& forall|k: IdView| #[trigger] moved.contains_key(k) ==> {
            let x = moved[k].0 as int;
            &&& 0 <= x < lists.len()
            &&& exists|q: int| 0 <= q < lists[x]@.len() && #[trigger] lists[x]@[q].id@ == k
        }
        &&& forall|x: int, q1: int, q2: int| 0 <= x < lists.len() && 0 <= q1 < q2 < lists[x]@.len()
            ==> #[trigger] lists[x]@[q1].id@ != #[trigger] lists[x]@[q2].id@
    }

    /// In rebuilt lists, entries of one list have distinct sequence numbers
    /// when the recorded sequence numbers are distinct.
    proof fn lemma_rebuilt_seqs_distinct(
        moved: Map<IdView, (usize, u64)>,
        lists: Seq<Vec<Entry<V>>>,
        ol: Seq<Seq<Entry<V>>>,
        oc: Seq<Seq<Option<PqCode>>>,
        use_pq: bool,
        next_seq: u64,
    )
        requires
            Self::rebuilt(moved, lists, ol, oc, use_pq, next_seq),
            seqs_distinct(moved),
        ensures
            forall|x: int| 0 <= x < lists.len() ==> seqs_pairwise_distinct(#[trigger] lists[x]@),
    {
        assert forall|x: int| 0 <= x < lists.len() implies seqs_pairwise_distinct(#[trigger] lists[x]@) by {
            assert forall|i: int, j: int| 0 <= i < j < lists[x]@.len() implies (#[trigger] lists[x]@[i]).seq != (#[trigger] lists[x]@[j]).seq by {
                let a = lists[x]@[i];
                let b = lists[x]@[j];
                assert(a.id@ != b.id@);
                assert(moved[a.id@].1 != moved[b.id@].1);
            }
        }
    }

    /// Rearranging each rebuilt list keeps it rebuilt.
    proof fn lemma_rebuilt_rearranged(
        moved: Map<IdView, (usize, u64)>,
        u: Seq<Vec<Entry<V>>>,
        s: Seq<Vec<Entry<V>>>,
        ol: Seq<Seq<Entry<V>>>,
        oc: Seq<Seq<Option<PqCode>>>,
        use_pq: bool,
        next_seq: u64,
    )
        requires
            Self::rebuilt(moved, u, ol, oc, use_pq, next_seq),
            s.len() == u.len(),
            forall|x: int| 0 <= x < s.len() ==> (#[trigger] s[x])@.to_multiset() == u[x]@.to_multiset(),
            forall|x: int| 0 <= x < s.len() ==> seq_sorted(#[trigger] s[x]@),
        ensures
            Self::rebuilt(moved, s, ol, oc, use_pq, next_seq),
    {
        assert forall|x: int, q: int| 0 <= x < s.len() && 0 <= q < s[x]@.len() implies exists|p: int|
            0 <= p < u[x]@.len() && u[x]@[p] == #[trigger] s[x]@[q] by {
            let e = s[x]@[q];
            assert(s[x]@.contains(e)) by {
                assert(s[x]@[q] == e);
            }
            vstd::seq_lib::to_multiset_contains(s[x]@, e);
            vstd::seq_lib::to_multiset_contains(u[x]@, e);
            assert(u[x]@.contains(e));
        }
        assert forall|x: int, q: int| 0 <= x < s.len() && 0 <= q < s[x]@.len() implies {
            let e = #[trigger] s[x]@[q];
            &&& moved.contains_key(e.id@)
            &&& moved[e.id@] == (x as usize, e.seq)
            &&& e.seq < next_seq
            &&& (e.pq_code is Some <==> use_pq)
            &&& exists|cc: int, p: int| 0 <= cc < ol.len() && 0 <= p < ol[cc].len()
                && #[trigger] Self::recoded(ol, oc, cc, p) == e
        } by {
            let p = choose|p: int| 0 <= p < u[x]@.len() && u[x]@[p] == #[trigger] s[x]@[q];
            assert(u[x]@[p] == s[x]@[q]);
        }
        assert forall|k: IdView| #[trigger] moved.contains_key(k) implies {
            let x = moved[k].0 as int;
            &&& 0 <= x < s.len()
            &&& exists|q: int| 0 <= q < s[x]@.len() && #[trigger] s[x]@[q].id@ == k
        } by {
            let x = moved[k].0 as int;
            let p = choose|p: int| 0 <= p < u[x]@.len() && #[trigger] u[x]@[p].id@ == k;
            let e = u[x]@[p];
            assert(u[x]@.contains(e)) by {
                assert(u[x]@[p] == e);
            }
            vstd::seq_lib::to_multiset_contains(u[x]@, e);
            vstd::seq_lib::to_multiset_contains(s[x]@, e);
            assert(s[x]@.contains(e));
            let q = choose|q: int| 0 <= q < s[x]@.len() && s[x]@[q] == e;
            assert(s[x]@[q].id@ == k);
        }
        assert forall|x: int, q1: int, q2: int| 0 <= x < s.len() && 0 <= q1 < q2 < s[x]@.len()
            implies #[trigger] s[x]@[q1].id@ != #[trigger] s[x]@[q2].id@ by {
            let a = s[x]@[q1];
            let b = s[x]@[q2];
            let pa = choose|p: int| 0 <= p < u[x]@.len() && u[x]@[p] == #[trigger] s[x]@[q1];
            let pb = choose|p: int| 0 <= p < u[x]@.len() && u[x]@[p] == #[trigger] s[x]@[q2];
            assert(u[x]@[pa] == a && u[x]@[pb] == b);
            assert(a.seq < b.seq);
            assert(moved[a.id@] == (x as usize, a.seq));
            assert(moved[b.id@] == (x as usize, b.seq));
        }
    }

    /// Rebuild the lists around new centroids (and, for an index that
    /// quantizes, a new quantizer): every entry moves, with its identifier,
    /// vector, metadata and sequence number, to the list of its nearest new
    /// centroid and takes its new code. Each rebuilt list holds its entries
    /// in ascending order of sequence number.
    ///
    /// For the entry at position `p` of list `c`, `sq_dists[c][p]` holds its
    /// squared distances (`f32` bit patterns) to the new centroids and
    /// `codes[c][p]` its new code (`None` when the index does not quantize).
    pub fn finish_retrain(
        &mut self,
        centroids: Vec<V>,
        pq: Option<ProductQuantizer>,
        codes: Vec<Vec<Option<PqCode>>>,
        sq_dists: &Vec<Vec<Vec<u32>>>,
    )
        requires
            old(self).wf(),
            old(self).trained_spec(),
            centroids@.len() == old(self).config_spec().n_clusters,
            pq is Some <==> old(self).config_spec().use_pq,
            codes@.len() == old(self).lists_spec().len(),
            sq_dists@.len() == old(self).lists_spec().len(),
            forall|c: int| 0 <= c < codes@.len() ==> #[trigger] codes@[c]@.len() == old(self).lists_spec()[c].len(),
            forall|c: int| 0 <= c < sq_dists@.len() ==> #[trigger] sq_dists@[c]@.len() == old(self).lists_spec()[c].len(),
            forall|c: int, p: int| 0 <= c < codes@.len() && 0 <= p < codes@[c]@.len()
                ==> (#[trigger] codes@[c]@[p] is Some <==> old(self).config_spec().use_pq),
            forall|c: int, p: int| 0 <= c < sq_dists@.len() && 0 <= p < sq_dists@[c]@.len()
                ==> (#[trigger] sq_dists@[c]@[p])@.len() == old(self).config_spec().n_clusters,
        ensures
            final(self).wf(),
            final(self).trained_spec(),
            final(self).quantizes() == old(self).quantizes(),
            final(self).quantizer_spec() == pq,
            final(self).centroids_spec() == centroids@,
            final(self).dim_spec() == old(self).dim_spec(),
            final(self).metric_spec() == old(self).metric_spec(),
            final(self).config_spec() == old(self).config_spec(),
            final(self).next_seq_spec() == old(self).next_seq_spec(),
            final(self).contents().dom() == old(self).contents().dom(),
            final(self).contents().len() == old(self).contents().len(),
            forall|k: IdView| #[trigger] final(self).has(k) ==> final(self).contents()[k].1 == old(self).contents()[k].1,
            forall|c: int, p: int| 0 <= c < old(self).lists_spec().len() && 0 <= p < old(self).lists_spec()[c].len()
                ==> #[trigger] final(self).contents()[old(self).lists_spec()[c][p].id@]
                    == (nearest_index(sq_dists@[c]@[p]@) as usize, old(self).lists_spec()[c][p].seq),
            forall|x: int, q: int| #![trigger final(self).lists_spec()[x][q]]
                0 <= x < final(self).lists_spec().len() && 0 <= q < final(self).lists_spec()[x].len()
                ==> exists|c: int, p: int| 0 <= c < old(self).lists_spec().len() && 0 <= p < old(self).lists_spec()[c].len()
                    && final(self).lists_spec()[x][q] == #[trigger] Self::recoded(old(self).lists_spec(),
                        nested_view(codes@), c, p),
            forall|x: int| 0 <= x < final(self).lists_spec().len() ==> seq_sorted(#[trigger] final(self).lists_spec()[x]),
    {
        let ghost before = *self;
        let ghost ol = before.lists_spec();
        let ghost oc = nested_view(codes@);
        let ghost use_pq = before.cfg.use_pq;
        proof {
            before.lemma_wf_lists();
        }
        let n = self.lists.len();
        let mut codes = codes;
        let mut new_lists: Vec<Vec<Entry<V>>> = Vec::new();
        let mut i: usize = 0;
        while i < n
            invariant
                i <= n,
                new_lists@.len() == i,
                forall|x: int| 0 <= x < i ==> #[trigger] new_lists@[x]@.len() == 0,
            decreases n - i,
        {
            new_lists.push(Vec::new());
            i = i + 1;
        }
        let mut new_dir = IdDirectory::new();
        let ghost mut moved: Map<IdView, (usize, u64)> = Map::empty();
        proof {
            assert(new_dir.map() =~= moved.map_values(|v: (usize, u64)| v.0));
        }
        let mut c: usize = 0;
        while c < n
            invariant
                n == ol.len(),
                n == before.cfg.n_clusters,
                c <= n,
                ol == before.lists_spec(),
                oc.len() == n,
                use_pq == before.cfg.use_pq,
                before.wf(),
                self.next_seq == before.next_seq,
                self.cfg == before.cfg,
                self.dim == before.dim,
                self.metric == before.metric,
                self.trained == before.trained,
                self.live_count == before.live_count,
                self.lists@.len() == n,
                codes@.len() == n,
                new_lists@.len() == n,
                sq_dists@.len() == n,
                forall|cc: int| 0 <= cc < n ==> #[trigger] sq_dists@[cc]@.len() == ol[cc].len(),
                forall|cc: int, p: int| 0 <= cc < n && 0 <= p < sq_dists@[cc]@.len()
                    ==> (#[trigger] sq_dists@[cc]@[p])@.len() == n,
                forall|cc: int, p: int| 0 <= cc < n && 0 <= p < oc[cc].len()
                    ==> (#[trigger] oc[cc][p] is Some <==> use_pq),
                forall|cc: int| 0 <= cc < n ==> #[trigger] oc[cc].len() == ol[cc].len(),
                forall|cc: int| c <= cc < n ==> #[trigger] self.lists@[cc]@ == ol[cc],
                forall|cc: int| 0 <= cc < c ==> #[trigger] self.lists@[cc]@.len() == 0,
                forall|cc: int| c <= cc < n ==> #[trigger] codes@[cc]@ == oc[cc],
                moved.dom().finite(),
                forall|cc: int, p: int| 0 <= cc < c && 0 <= p < ol[cc].len()
                    ==> #[trigger] Self::placed(moved, ol[cc][p], sq_dists@[cc]@[p]@),
                forall|k: IdView| #[trigger] moved.contains_key(k) ==> before.contents@.contains_key(k),
                forall|cc: int, p: int| c <= cc < n && 0 <= p < ol[cc].len() ==> !(#[trigger] moved.contains_key(ol[cc][p].id@)),
                new_dir.wf(),
                new_dir.map() == moved.map_values(|v: (usize, u64)| v.0),
                forall|x: int, q: int| 0 <= x < n && 0 <= q < new_lists@[x]@.len() ==> {
                    let e = #[trigger] new_lists@[x]@[q];
                    &&& moved.contains_key(e.id@)
                    &&& moved[e.id@] == (x as usize, e.seq)
                    &&& e.seq < before.next_seq
                    &&& (e.pq_code is Some <==> use_pq)
                    &&& exists|cc: int, p: int| 0 <= cc < n && 0 <= p < ol[cc].len()
                        && #[trigger] Self::recoded(ol, oc, cc, p) == e
                },
                forall|k: IdView| #[trigger] moved.contains_key(k) ==> {
                    let x = moved[k].0 as int;
                    &&& 0 <= x < n
                    &&& exists|q: int| 0 <= q < new_lists@[x]@.len() && #[trigger] new_lists@[x]@[q].id@ == k
                },
                forall|x: int, q1: int, q2: int| 0 <= x < n && 0 <= q1 < q2 < new_lists@[x]@.len()
                    ==> #[trigger] new_lists@[x]@[q1].id@ != #[trigger] new_lists@[x]@[q2].id@,
            decreases n - c,
        {
            let ghost olist = ol[c as int];
            while self.lists[c].len() > 0
                invariant
                    n == ol.len(),
                    n == before.cfg.n_clusters,
                    c < n,
                    olist == ol[c as int],
                    ol == before.lists_spec(),
                    oc.len() == n,
                    use_pq == before.cfg.use_pq,
                    before.wf(),
                    self.next_seq == before.next_seq,
                    self.cfg == before.cfg,
                    self.dim == before.dim,
                    self.metric == before.metric,
                    self.trained == before.trained,
                    self.live_count == before.live_count,
                    self.lists@.len() == n,
                    codes@.len() == n,
                    new_lists@.len() == n,
                    sq_dists@.len() == n,
                    forall|cc: int| 0 <= cc < n ==> #[trigger] sq_dists@[cc]@.len() == ol[cc].len(),
                    forall|cc: int, p: int| 0 <= cc < n && 0 <= p < sq_dists@[cc]@.len()
                        ==> (#[trigger] sq_dists@[cc]@[p])@.len() == n,
                    forall|cc: int, p: int| 0 <= cc < n && 0 <= p < oc[cc].len()
                        ==> (#[trigger] oc[cc][p] is Some <==> use_pq),
                    forall|cc: int| 0 <= cc < n ==> #[trigger] oc[cc].len() == ol[cc].len(),
                    forall|cc: int| c < cc < n ==> #[trigger] self.lists@[cc]@ == ol[cc],
                    forall|cc: int| 0 <= cc < c ==> #[trigger] self.lists@[cc]@.len() == 0,
                    forall|cc: int| c < cc < n ==> #[trigger] codes@[cc]@ == oc[cc],
                    self.lists@[c as int]@.len() <= olist.len(),
                    self.lists@[c as int]@ == olist.subrange(0, self.lists@[c as int]@.len() as int),
                    codes@[c as int]@ == oc[c as int].subrange(0, self.lists@[c as int]@.len() as int),
                    moved.dom().finite(),
                    forall|cc: int, p: int|
                        (0 <= cc < c && 0 <= p < ol[cc].len()) || (cc == c && self.lists@[c as int]@.len() <= p < ol[cc].len())
                        ==> #[trigger] Self::placed(moved, ol[cc][p], sq_dists@[cc]@[p]@),
                    forall|k: IdView| #[trigger] moved.contains_key(k) ==> before.contents@.contains_key(k),
                    forall|cc: int, p: int|
                        (c < cc < n && 0 <= p < ol[cc].len()) || (cc == c && 0 <= p < self.lists@[c as int]@.len())
                        ==> !(#[trigger] moved.contains_key(ol[cc][p].id@)),
                    new_dir.wf(),
                    new_dir.map() == moved.map_values(|v: (usize, u64)| v.0),
                    forall|x: int, q: int| 0 <= x < n && 0 <= q < new_lists@[x]@.len() ==> {
                        let e = #[trigger] new_lists@[x]@[q];
                        &&& moved.contains_key(e.id@)
                        &&& moved[e.id@] == (x as usize, e.seq)
                        &&& e.seq < before.next_seq
                        &&& (e.pq_code is Some <==> use_pq)
                        &&& exists|cc: int, p: int| 0 <= cc < n && 0 <= p < ol[cc].len()
                            && #[trigger] Self::recoded(ol, oc, cc, p) == e
                    },
                    forall|k: IdView| #[trigger] moved.contains_key(k) ==> {
                        let x = moved[k].0 as int;
                        &&& 0 <= x < n
                        &&& exists|q: int| 0 <= q < new_lists@[x]@.len() && #[trigger] new_lists@[x]@[q].id@ == k
                    },
                    forall|x: int, q1: int, q2: int| 0 <= x < n && 0 <= q1 < q2 < new_lists@[x]@.len()
                        ==> #[trigger] new_lists@[x]@[q1].id@ != #[trigger] new_lists@[x]@[q2].id@,
                decreases self.lists@[c as int]@.len(),
            {
                let ghost len0 = self.lists@[c as int]@.len();
                let p = self.lists[c].len() - 1;
                let popped = self.lists[c].pop();
                let code_slot = codes[c].pop();
                let mut e = match popped {
                    Some(e) => e,
                    None => {
                        proof {
                            assert(false);
                        }
                        return;
                    },
                };
                let code = match code_slot {
                    Some(code) => code,
                    None => {
                        proof {
                            assert(false);
                        }
                        return;
                    },
                };
                assert(e == olist[p as int]);
                assert(code == oc[c as int][p as int]);
                e.pq_code = code;
                let ghost entry = e;
                assert(entry == Self::recoded(ol, oc, c as int, p as int));
                let d = &sq_dists[c][p];
                let nc = nearest_centroid(d);
                assert(d@ == sq_dists@[c as int]@[p as int]@);
                let ghost k = e.id@;
                proof {
                    assert(before.entry_recorded(c as int, p as int));
                    assert(!moved.contains_key(k));
                }
                new_dir.insert(&e.id, nc);
                let ghost old_new_list = new_lists@[nc as int]@;
                let ghost nl0 = new_lists@;
                let ghost old_moved = moved;
                new_lists[nc].push(e);
                proof {
                    moved = moved.insert(k, (nc, entry.seq));
                    // Identifiers of old entries are unique across all lists.
                    assert forall|cc: int, pp: int|
                        0 <= cc < n && 0 <= pp < ol[cc].len() && ol[cc][pp].id@ == k implies cc == c && pp == p by {
                        assert(before.entry_recorded(cc, pp));
                        assert(before.lists@[cc]@[pp] == ol[cc][pp]);
                        if cc == c && pp != p {
                            if pp < p {
                                assert(before.lists@[cc]@[pp].id@ != before.lists@[cc]@[p as int].id@);
                            } else {
                                assert(before.lists@[cc]@[p as int].id@ != before.lists@[cc]@[pp].id@);
                            }
                        }
                    }
                    assert forall|cc: int, pp: int|
                        (0 <= cc < c && 0 <= pp < ol[cc].len()) || (cc == c && self.lists@[c as int]@.len() <= pp < ol[cc].len())
                        implies #[trigger] Self::placed(moved, ol[cc][pp], sq_dists@[cc]@[pp]@) by {
                        if cc == c && pp == p {
                            assert(ol[cc][pp].id@ == k);
                            assert(moved[k] == (nc, entry.seq));
                            assert(nc as nat == nearest_index(sq_dists@[c as int]@[p as int]@));
                            assert(entry.seq == ol[c as int][p as int].seq);
                        } else {
                            assert(ol[cc][pp].id@ != k) by {
                                if ol[cc][pp].id@ == k {
                                    assert(cc == c && pp == p);
                                }
                            }
                            assert(Self::placed(old_moved, ol[cc][pp], sq_dists@[cc]@[pp]@));
                        }
                    }
                    assert forall|cc: int, pp: int|
                        (c < cc < n && 0 <= pp < ol[cc].len()) || (cc == c && 0 <= pp < self.lists@[c as int]@.len())
                        implies !(#[trigger] moved.contains_key(ol[cc][pp].id@)) by {
                        if ol[cc][pp].id@ == k {
                            assert(cc == c && pp == p);
                        }
                    }
                    assert forall|x: int, q: int| 0 <= x < n && 0 <= q < new_lists@[x]@.len() implies {
                        let e = #[trigger] new_lists@[x]@[q];
                        &&& moved.contains_key(e.id@)
                        &&& moved[e.id@] == (x as usize, e.seq)
                        &&& e.seq < before.next_seq
                        &&& (e.pq_code is Some <==> use_pq)
                        &&& exists|cc: int, pp: int| 0 <= cc < n && 0 <= pp < ol[cc].len()
                            && #[trigger] Self::recoded(ol, oc, cc, pp) == e
                    } by {
                        if x == nc && q == old_new_list.len() {
                            assert(new_lists@[x]@[q] == entry);
                            assert(Self::recoded(ol, oc, c as int, p as int) == entry);
                        } else {
                            if x == nc {
                                assert(new_lists@[x]@[q] == old_new_list[q]);
                            } else {
                                assert(new_lists@[x] == nl0[x]);
                            }
                            let e2 = new_lists@[x]@[q];
                            assert(nl0[x]@[q] == e2);
                            assert(old_moved.contains_key(e2.id@));
                            assert(e2.id@ != k);
                        }
                    }
                    assert forall|kk: IdView| #[trigger] moved.contains_key(kk) implies {
                        let x = moved[kk].0 as int;
                        &&& 0 <= x < n
                        &&& exists|q: int| 0 <= q < new_lists@[x]@.len() && #[trigger] new_lists@[x]@[q].id@ == kk
                    } by {
                        if kk == k {
                            assert(new_lists@[nc as int]@[old_new_list.len() as int].id@ == kk);
                        } else {
                            let x = old_moved[kk].0 as int;
                            assert(old_moved.contains_key(kk));
                            let q = choose|q: int| 0 <= q < nl0[x]@.len() && #[trigger] nl0[x]@[q].id@ == kk;
                            if x == nc {
                                assert(new_lists@[x]@[q] == old_new_list[q]);
                            } else {
                                assert(new_lists@[x] == nl0[x]);
                            }
                            assert(new_lists@[x]@[q].id@ == kk);
                        }
                    }
                    assert forall|x: int, q1: int, q2: int| 0 <= x < n && 0 <= q1 < q2 < new_lists@[x]@.len()
                        implies #[trigger] new_lists@[x]@[q1].id@ != #[trigger] new_lists@[x]@[q2].id@ by {
                        if x == nc {
                            assert(new_lists@[x]@[q1] == old_new_list[q1]);
                            if q2 == old_new_list.len() {
                                assert(old_moved.contains_key(old_new_list[q1].id@));
                            } else {
                                assert(new_lists@[x]@[q2] == old_new_list[q2]);
                            }
                        }
                    }
                    assert(new_dir.map() =~= moved.map_values(|v: (usize, u64)| v.0));
                    assert(self.lists@[c as int]@ =~= olist.subrange(0, self.lists@[c as int]@.len() as int));
                    assert(codes@[c as int]@ =~= oc[c as int].subrange(0, self.lists@[c as int]@.len() as int));
                }
            }
            c = c + 1;
        }
        proof {
            assert(Self::rebuilt(moved, new_lists@, ol, oc, use_pq, before.next_seq));
            assert forall|k: IdView| #[trigger] moved.contains_key(k) implies moved[k].1 == before.contents@[k].1 by {
                assert(before.contents@.contains_key(k));
                assert(before.key_stored(k));
                let cc = before.contents@[k].0 as int;
                let pp = choose|pp: int| 0 <= pp < before.lists@[cc]@.len() && #[trigger] before.lists@[cc]@[pp].id@ == k;
                assert(ol[cc][pp].id@ == k);
                assert(Self::placed(moved, ol[cc][pp], sq_dists@[cc]@[pp]@));
                assert(before.entry_recorded(cc, pp));
            }
            assert(seqs_distinct(moved));
            Self::lemma_rebuilt_seqs_distinct(moved, new_lists@, ol, oc, use_pq, before.next_seq);
        }
        // Each rebuilt list holds its entries in insertion order.
        let ghost unsorted = new_lists@;
        let mut x: usize = 0;
        while x < n
            invariant
                n == unsorted.len(),
                new_lists@.len() == n,
                x <= n,
                forall|y: int| x <= y < n ==> #[trigger] new_lists@[y] == unsorted[y],
                forall|y: int| 0 <= y < x ==> (#[trigger] new_lists@[y])@.to_multiset() == unsorted[y]@.to_multiset(),
                forall|y: int| 0 <= y < x ==> seq_sorted(#[trigger] new_lists@[y]@),
                forall|y: int| 0 <= y < n ==> seqs_pairwise_distinct(#[trigger] unsorted[y]@),
            decreases n - x,
        {
            let mut tmp: Vec<Entry<V>> = Vec::new();
            std::mem::swap(&mut new_lists[x], &mut tmp);
            assert(tmp@ == unsorted[x as int]@);
            let sorted = sort_by_seq(tmp);
            new_lists.set(x, sorted);
            x = x + 1;
        }
        proof {
            Self::lemma_rebuilt_rearranged(moved, unsorted, new_lists@, ol, oc, use_pq, before.next_seq);
        }
        self.centroids = centroids;
        self.pq = pq;
        self.lists = new_lists;
        self.dir = new_dir;
        self.contents = Ghost(moved);
        proof {
            assert forall|k: IdView| #[trigger] moved.contains_key(k) <==> before.contents@.contains_key(k) by {
                if before.contents@.contains_key(k) {
                    assert(before.key_stored(k));
                    let cc = before.contents@[k].0 as int;
                    let pp = choose|pp: int| 0 <= pp < before.lists@[cc]@.len() && #[trigger] before.lists@[cc]@[pp].id@ == k;
                    assert(ol[cc][pp].id@ == k);
                    assert(Self::placed(moved, ol[cc][pp], sq_dists@[cc]@[pp]@));
                }
            }
            assert(moved.dom() =~= before.contents@.dom());
            assert forall|k: IdView| #[trigger] moved.contains_key(k) implies moved[k].1 == before.contents@[k].1 by {
                assert(before.key_stored(k));
                let cc = before.contents@[k].0 as int;
                let pp = choose|pp: int| 0 <= pp < before.lists@[cc]@.len() && #[trigger] before.lists@[cc]@[pp].id@ == k;
                assert(ol[cc][pp].id@ == k);
                assert(Self::placed(moved, ol[cc][pp], sq_dists@[cc]@[pp]@));
                assert(before.entry_recorded(cc, pp));
            }
            assert(moved.len() == before.contents@.len());
            assert forall|cc: int, pp: int| 0 <= cc < ol.len() && 0 <= pp < ol[cc].len()
                implies #[trigger] self.contents()[ol[cc][pp].id@]
                    == (nearest_index(sq_dists@[cc]@[pp]@) as usize, ol[cc][pp].seq) by {
                assert(Self::placed(moved, ol[cc][pp], sq_dists@[cc]@[pp]@));
            }
            assert forall|x: int, q: int|
                0 <= x < self.lists@.len() && 0 <= q < self.lists@[x]@.len() implies #[trigger] self.entry_recorded(x, q) by {
                let e = self.lists@[x]@[q];
                assert(new_lists@[x]@[q] == e);
                assert(moved.contains_key(e.id@));
                assert(moved[e.id@] == (x as usize, e.seq));
                assert(e.seq < self.next_seq);
                assert(e.pq_code is Some <==> use_pq);
                assert(self.pq is Some <==> use_pq);
            }
            assert forall|k: IdView| #[trigger] self.contents@.contains_key(k) implies self.key_stored(k) by {
                let x = moved[k].0 as int;
                let q = choose|q: int| 0 <= q < new_lists@[x]@.len() && #[trigger] new_lists@[x]@[q].id@ == k;
                assert(self.lists@[x]@[q].id@ == k);
            }
            assert forall|x: int, q: int| #![trigger self.lists_spec()[x][q]]
                0 <= x < self.lists_spec().len() && 0 <= q < self.lists_spec()[x].len()
                implies exists|cc: int, pp: int| 0 <= cc < ol.len() && 0 <= pp < ol[cc].len()
                    && self.lists_spec()[x][q] == #[trigger] Self::recoded(ol, oc, cc, pp) by {
                assert(self.lists_spec()[x][q] == new_lists@[x]@[q]);
            }
        }
    }

    /// The identifiers stored in the first `i` lists.
    pub open spec fn ids_upto(&self, i: int) -> Set<IdView> {
        Set::new(|k: IdView| exists|c: int, p: int|
            0 <= c < i && 0 <= p < self.lists_spec()[c].len() && #[trigger] self.lists_spec()[c][p].id@ == k)
    }

    /// The identifiers of list `c`.
    pub open spec fn ids_of(&self, c: int) -> Set<IdView> {
        self.lists_spec()[c].map_values(|e: Entry<V>| e.id@).to_set()
    }

    /// The first `i` lists hold as many distinct identifiers as entries.
    proof fn lemma_ids_upto_len(&self, i: int)
        requires
            self.wf(),
            0 <= i <= self.lists_spec().len(),
        ensures
            self.ids_upto(i).finite(),
            self.ids_upto(i).len() == prefix_sum(self.list_sizes(), i as nat),
        decreases i,
    {
        broadcast use vstd::set_lib::lemma_set_disjoint_lens;
        self.lemma_wf_lists();
        if i == 0 {
            assert(self.ids_upto(0) =~= Set::<IdView>::empty());
        } else {
            self.lemma_ids_upto_len(i - 1);
            let c = i - 1;
            let ids = self.lists_spec()[c].map_values(|e: Entry<V>| e.id@);
            assert(ids.no_duplicates()) by {
                assert forall|a: int, b: int| 0 <= a < ids.len() && 0 <= b < ids.len() && a != b implies ids[a] != ids[b] by {
                    if a < b {
                        assert(self.lists_spec()[c][a].id@ != self.lists_spec()[c][b].id@);
                    } else {
                        assert(self.lists_spec()[c][b].id@ != self.lists_spec()[c][a].id@);
                    }
                }
            }
            ids.unique_seq_to_set();
            assert(ids.to_set().finite());
            let prev = self.ids_upto(c);
            let here = self.ids_of(c);
            assert(here == ids.to_set());
            assert(prev.disjoint(here)) by {
                assert forall|k: IdView| prev.contains(k) implies !here.contains(k) by {
                    let (c1, p1) = choose|c1: int, p1: int|
                        0 <= c1 < c && 0 <= p1 < self.lists_spec()[c1].len() && #[trigger] self.lists_spec()[c1][p1].id@ == k;
                    if here.contains(k) {
                        let p2 = choose|p2: int| 0 <= p2 < ids.len() && ids[p2] == k;
                        assert(self.lists_spec()[c][p2].id@ == k);
                        assert(self.contents()[k].0 == c1 as usize);
                        assert(self.contents()[k].0 == c as usize);
                    }
                }
            }
            assert(self.ids_upto(i) =~= prev + here) by {
                assert forall|k: IdView| self.ids_upto(i).contains(k) <==> (prev + here).contains(k) by {
                    if self.ids_upto(i).contains(k) {
                        let (c1, p1) = choose|c1: int, p1: int|
                            0 <= c1 < i && 0 <= p1 < self.lists_spec()[c1].len() && #[trigger] self.lists_spec()[c1][p1].id@ == k;
                        if c1 == c {
                            assert(ids[p1] == k);
                            assert(ids.contains(k));
                        } else {
                            assert(prev.contains(k));
                        }
                    }
                    if here.contains(k) {
                        let p2 = choose|p2: int| 0 <= p2 < ids.len() && ids[p2] == k;
                        assert(self.lists_spec()[c][p2].id@ == k);
                    }
                    if prev.contains(k) {
                        let (c1, p1) = choose|c1: int, p1: int|
                            0 <= c1 < c && 0 <= p1 < self.lists_spec()[c1].len() && #[trigger] self.lists_spec()[c1][p1].id@ == k;
                        assert(self.lists_spec()[c1][p1].id@ == k);
                    }
                }
            }
            assert(self.list_sizes()[c] == self.lists_spec()[c].len());
        }
    }

    /// The list sizes add up to the number of live vectors.
    pub proof fn lemma_sizes_sum_to_len(&self)
        requires
            self.wf(),
        ensures
            prefix_sum(self.list_sizes(), self.list_sizes().len()) == self.contents().len(),
    {
        self.lemma_wf_lists();
        let n = self.lists_spec().len() as int;
        self.lemma_ids_upto_len(n);
        assert(self.ids_upto(n) =~= self.contents().dom()) by {
            assert forall|k: IdView| self.ids_upto(n).contains(k) <==> self.contents().dom().contains(k) by {
                if self.ids_upto(n).contains(k) {
                    let (c1, p1) = choose|c1: int, p1: int|
                        0 <= c1 < n && 0 <= p1 < self.lists_spec()[c1].len() && #[trigger] self.lists_spec()[c1][p1].id@ == k;
                    assert(self.has(self.lists_spec()[c1][p1].id@));
                }
                if self.contents().dom().contains(k) {
                    assert(self.has(k));
                    let c = self.contents()[k].0 as int;
                    let p = choose|p: int| 0 <= p < self.lists_spec()[c].len() && #[trigger] self.lists_spec()[c][p].id@ == k;
                    assert(self.lists_spec()[c][p].id@ == k);
                }
            }
        }
        assert(self.list_sizes().len() == n);
    }
}

} // verus!
