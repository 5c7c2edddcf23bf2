//! The decisions of a query.
//!
//! A query runs in two passes. First the centroids are ranked by the
//! configured metric and the `n_probes` nearest lists are chosen; then the
//! entries of those lists that pass the metadata filter are ranked and the
//! `k` best returned. Distances are computed by the caller (exactly, or by
//! product-quantization lookup tables) and handed in as raw `f32` bit
//! patterns; for `DotProduct` they are similarities and are negated here,
//! so that every reported distance is smaller-is-nearer.

use vstd::prelude::*;
use iqdb_filter::FilterEvaluator;
use iqdb_types::{Filter, Metadata};
use crate::error::IvfError;
use crate::filter::{evaluator_admits, evaluator_for, evaluator_new, filter_admits, filter_copy, metadata_copy};
use crate::float_bits::{negate_bits, neg_spec, total_key};
use crate::id::{IdView, ItemId};
use crate::index::{Entry, IvfIndex};
use crate::metric::{negates_spec, Metric};
use crate::topk::{cand_before, is_topk, lemma_topk_keeps_all, lemma_topk_sorted, lemma_topk_unique, min_nat, select_topk_indices};

verus! {

/// One search result: the identifier, the smaller-is-nearer distance (an
/// `f32` bit pattern), and the stored metadata.
#[derive(Debug)]
pub struct IvfHit {
    /// The identifier of the stored vector.
    pub id: ItemId,
    /// The distance, as the bit pattern of an `f32`; smaller is nearer.
    pub distance: u32,
    /// The metadata the vector was inserted with.
    pub metadata: Option<Metadata>,
}

/// How a query proceeds after its checks.
pub enum SearchStart {
    /// Nothing to scan (`k == 0` or an empty index): the answer is empty.
    Done,
    /// Scan, filtering entries with the evaluator when there is one.
    Scan(Option<FilterEvaluator>),
}

/// The kind of scan a query needs.
#[derive(PartialEq, Eq, Structural)]
pub enum ScanKind {
    /// No scan: the answer is empty.
    Nothing,
    /// Scan every entry of the probed lists.
    Unfiltered,
    /// Scan the entries of the probed lists that pass the filter.
    Filtered,
}

/// The value behind an optional reference.
pub open spec fn opt_deref<T>(o: Option<&T>) -> Option<T> {
    match o {
        Some(t) => Some(*t),
        None => None,
    }
}

/// How a product-quantized scan proceeds after its lookup-table scores.
pub enum PqStep {
    /// The final hits (refine disabled).
    Hits(Vec<IvfHit>),
    /// Re-score these candidates exactly, best first, and rank them.
    Rerank(Vec<(usize, usize)>),
}

/// The smaller-is-nearer distance for a raw score of the metric.
pub open spec fn oriented(metric: Metric, raw: u32) -> u32 {
    if negates_spec(metric) { neg_spec(raw) } else { raw }
}

/// The smaller-is-nearer distances for raw scores of the metric.
pub open spec fn oriented_all(metric: Metric, raw: Seq<u32>) -> Seq<u32> {
    Seq::new(raw.len(), |i: int| oriented(metric, raw[i]))
}

/// `0, 1, ..., n - 1` as sequence numbers: lists are ranked with their own
/// index as the tiebreaker, so equal distances go to the lower list.
pub open spec fn list_ids(n: nat) -> Seq<u64> {
    Seq::new(n, |i: int| i as u64)
}

/// Whether an entry passes the optional filter.
pub open spec fn passes<V>(e: Entry<V>, ev: Option<FilterEvaluator>) -> bool {
    match ev {
        None => true,
        Some(f) => filter_admits(f, e.metadata),
    }
}

/// The addresses `(c, p)` of the entries among the first `n` of list `c`
/// that pass the filter, in list order.
pub open spec fn passing_prefix<V>(lists: Seq<Seq<Entry<V>>>, c: int, ev: Option<FilterEvaluator>, n: nat) -> Seq<(usize, usize)>
    decreases n,
{
    if n == 0 {
        Seq::empty()
    } else {
        let rest = passing_prefix(lists, c, ev, (n - 1) as nat);
        if passes(lists[c][n - 1], ev) { rest.push((c as usize, (n - 1) as usize)) } else { rest }
    }
}

/// The candidates of the first `i` probed lists, list by list.
pub open spec fn candidates_upto<V>(lists: Seq<Seq<Entry<V>>>, probed: Seq<usize>, ev: Option<FilterEvaluator>, i: nat) -> Seq<(usize, usize)>
    decreases i,
{
    if i == 0 || i > probed.len() {
        Seq::empty()
    } else {
        let c = probed[i - 1] as int;
        candidates_upto(lists, probed, ev, (i - 1) as nat) + passing_prefix(lists, c, ev, lists[c].len())
    }
}

/// The candidates of a query: the entries of the probed lists that pass
/// the filter, in probe order and list order within each list.
pub open spec fn candidates<V>(lists: Seq<Seq<Entry<V>>>, probed: Seq<usize>, ev: Option<FilterEvaluator>) -> Seq<(usize, usize)> {
    candidates_upto(lists, probed, ev, probed.len())
}

/// The sequence numbers of the entries at the given addresses.
pub open spec fn seqs_at<V>(lists: Seq<Seq<Entry<V>>>, addrs: Seq<(usize, usize)>) -> Seq<u64> {
    Seq::new(addrs.len(), |i: int| lists[addrs[i].0 as int][addrs[i].1 as int].seq)
}

/// Every address names an entry of the lists.
pub open spec fn valid_addrs<V>(lists: Seq<Seq<Entry<V>>>, addrs: Seq<(usize, usize)>) -> bool {
    forall|i: int| 0 <= i < addrs.len() ==>
        (#[trigger] addrs[i]).0 < lists.len() && addrs[i].1 < lists[addrs[i].0 as int].len()
}

/// `hits` are the entries at `addrs[chosen[j]]`, with the distances
/// `dists[chosen[j]]`.
pub open spec fn hits_match<V>(lists: Seq<Seq<Entry<V>>>, addrs: Seq<(usize, usize)>, dists: Seq<u32>, chosen: Seq<usize>, hits: Seq<IvfHit>) -> bool {
    &&& hits.len() == chosen.len()
    &&& forall|j: int| 0 <= j < hits.len() ==> {
        let a = addrs[chosen[j] as int];
        let e = lists[a.0 as int][a.1 as int];
        &&& (#[trigger] hits[j]).id@ == e.id@
        &&& hits[j].distance == dists[chosen[j] as int]
        &&& hits[j].metadata == e.metadata
    }
}

/// How many lookup-table candidates are shortlisted for exact re-scoring:
/// `refine * k`, but no more than there are candidates.
pub open spec fn shortlist_len(refine: u32, k: usize, n: nat) -> nat {
    if refine as int * k < n { (refine as int * k) as nat } else { n }
}

/// Only the inner product is a similarity: its scores are negated into
/// smaller-is-nearer distances, while the raw distance of every other
/// metric (cosine, Euclidean, Manhattan, Hamming) is used as it is.
pub proof fn lemma_only_dot_product_is_negated(metric: Metric, raw: u32)
    ensures
        metric != Metric::DotProduct ==> oriented(metric, raw) == raw,
        metric == Metric::DotProduct ==> oriented(metric, raw) == neg_spec(raw),
        negates_spec(metric) <==> metric == Metric::DotProduct,
{
}

/// With a refine factor of at least one, the shortlist holds `refine * k`
/// candidates, or every candidate when there are no more than that: it is
/// never longer than either, and it is one of the two.
pub proof fn lemma_shortlist_len(refine: u32, k: usize, n: nat)
    requires
        refine >= 1,
    ensures
        shortlist_len(refine, k, n) <= n,
        shortlist_len(refine, k, n) <= refine * k,
        shortlist_len(refine, k, n) == n || shortlist_len(refine, k, n) == refine * k,
        refine * k >= n ==> shortlist_len(refine, k, n) == n,
        refine * k < n ==> shortlist_len(refine, k, n) == refine * k,
{
}

/// The smaller-is-nearer distance for a raw score.
fn orient(metric: Metric, raw: u32) -> (r: u32)
    ensures
        r == oriented(metric, raw),
{
    if metric.is_similarity() { negate_bits(raw) } else { raw }
}

/// The smaller-is-nearer distances for raw scores.
fn orient_all(metric: Metric, raw: &[u32]) -> (r: Vec<u32>)
    ensures
        r@ == oriented_all(metric, raw@),
{
    let mut out: Vec<u32> = Vec::new();
    let mut i: usize = 0;
    while i < raw.len()
        invariant
            i <= raw@.len(),
            out@ =~= Seq::new(i as nat, |j: int| oriented(metric, raw@[j])),
        decreases raw@.len() - i,
    {
        out.push(orient(metric, raw[i]));
        i = i + 1;
    }
    out
}

/// Whether an entry passes the optional filter.
fn entry_passes<V>(e: &Entry<V>, ev: Option<&FilterEvaluator>) -> (r: bool)
    ensures
        r == passes(*e, match ev { Some(f) => Some(*f), None => None }),
{
    match ev {
        None => true,
        Some(f) => evaluator_admits(f, &e.metadata),
    }
}

impl<V> IvfIndex<V> {
    /// What the checks of a query decide.
    pub open spec fn gate_spec(&self, query_len: usize, k: usize, metric: Metric, filter: Option<Filter>) -> Result<ScanKind, IvfError> {
        if !self.trained_spec() {
            Err(IvfError::InvalidConfig { reason: "IvfIndex must be trained before use" })
        } else if query_len != self.dim_spec() {
            Err(IvfError::DimensionMismatch { expected: self.dim_spec(), found: query_len })
        } else if metric != self.metric_spec() {
            Err(IvfError::InvalidMetric)
        } else if k == 0 || self.contents().len() == 0 {
            Ok(ScanKind::Nothing)
        } else {
            match filter {
                None => Ok(ScanKind::Unfiltered),
                Some(f) => if evaluator_for(f) is Some { Ok(ScanKind::Filtered) } else { Err(IvfError::InvalidFilter) },
            }
        }
    }

    /// The checks of a query, in order: the index must be trained, the
    /// query must have `dim` components, and `metric` must be the index's
    /// metric. Then `k == 0` or an empty index answers with no hits, and a
    /// filter is validated into an evaluator.
    pub fn search_gate(&self, query_len: usize, k: usize, metric: Metric, filter: Option<&Filter>) -> (r: Result<SearchStart, IvfError>)
        requires
            self.wf(),
        ensures
            match r {
                Ok(SearchStart::Done) => self.gate_spec(query_len, k, metric, opt_deref(filter)) == Ok::<ScanKind, IvfError>(ScanKind::Nothing),
                Ok(SearchStart::Scan(None)) => self.gate_spec(query_len, k, metric, opt_deref(filter)) == Ok::<ScanKind, IvfError>(ScanKind::Unfiltered),
                Ok(SearchStart::Scan(Some(ev))) => {
                    &&& self.gate_spec(query_len, k, metric, opt_deref(filter)) == Ok::<ScanKind, IvfError>(ScanKind::Filtered)
                    &&& evaluator_for(opt_deref(filter)->Some_0) == Some(ev)
                },
                Err(e) => self.gate_spec(query_len, k, metric, opt_deref(filter)) == Err::<ScanKind, IvfError>(e),
            },
    {
        if !self.is_trained() {
            return Err(IvfError::InvalidConfig { reason: "IvfIndex must be trained before use" });
        }
        if query_len != self.dim() {
            return Err(IvfError::DimensionMismatch { expected: self.dim(), found: query_len });
        }
        if !metric.same_as(&self.metric()) {
            return Err(IvfError::InvalidMetric);
        }
        if k == 0 || self.is_empty() {
            return Ok(SearchStart::Done);
        }
        match filter {
            None => Ok(SearchStart::Scan(None)),
            Some(f) => match evaluator_new(filter_copy(f)) {
                Ok(ev) => Ok(SearchStart::Scan(Some(ev))),
                Err(e) => Err(e),
            },
        }
    }

    /// The lists to scan: the `n_probes` lists whose centroids are nearest
    /// by the raw centroid scores `centroid_raw` (one per list), best
    /// first, ties to the lower list.
    pub fn select_probes(&self, centroid_raw: &[u32]) -> (r: Vec<usize>)
        requires
            self.wf(),
            centroid_raw@.len() == self.config_spec().n_clusters,
        ensures
            is_topk(oriented_all(self.metric_spec(), centroid_raw@), list_ids(centroid_raw@.len()),
                self.config_spec().n_probes as nat, r@),
    {
        let dists = orient_all(self.metric(), centroid_raw);
        let mut ids: Vec<u64> = Vec::new();
        let mut i: usize = 0;
        while i < centroid_raw.len()
            invariant
                i <= centroid_raw@.len(),
                ids@ =~= Seq::new(i as nat, |j: int| j as u64),
            decreases centroid_raw@.len() - i,
        {
            ids.push(i as u64);
            i = i + 1;
        }
        proof {
            assert(ids@ =~= list_ids(centroid_raw@.len()));
        }
        select_topk_indices(&dists, &ids, self.n_probes())
    }

    /// The candidates of a query: the addresses of the entries of the
    /// probed lists that pass the filter, probe by probe, in list order.
    pub fn probe_candidates(&self, probed: &[usize], ev: Option<&FilterEvaluator>) -> (r: Vec<(usize, usize)>)
        requires
            self.wf(),
            forall|j: int| 0 <= j < probed@.len() ==> #[trigger] probed@[j] < self.config_spec().n_clusters,
        ensures
            r@ == candidates(self.lists_spec(), probed@, opt_deref(ev)),
            valid_addrs(self.lists_spec(), r@),
    {
        let ghost lists = self.lists_spec();
        let ghost evs = opt_deref(ev);
        proof {
            self.lemma_wf_lists();
        }
        let mut out: Vec<(usize, usize)> = Vec::new();
        let mut i: usize = 0;
        while i < probed.len()
            invariant
                i <= probed@.len(),
                lists == self.lists_spec(),
                evs == opt_deref(ev),
                lists.len() == self.config_spec().n_clusters,
                forall|j: int| 0 <= j < probed@.len() ==> #[trigger] probed@[j] < self.config_spec().n_clusters,
                out@ == candidates_upto(lists, probed@, evs, i as nat),
                valid_addrs(lists, out@),
            decreases probed@.len() - i,
        {
            let c = probed[i];
            let list = self.list(c);
            let ghost base = out@;
            let mut p: usize = 0;
            while p < list.len()
                invariant
                    p <= list@.len(),
                    list@ == lists[c as int],
                    c < lists.len(),
                    evs == opt_deref(ev),
                    out@ == base + passing_prefix(lists, c as int, evs, p as nat),
                    valid_addrs(lists, out@),
                decreases list@.len() - p,
            {
                let ghost before = out@;
                if entry_passes(&list[p], ev) {
                    out.push((c, p));
                    proof {
                        assert(out@ =~= base + passing_prefix(lists, c as int, evs, (p + 1) as nat));
                    }
                } else {
                    proof {
                        assert(out@ =~= base + passing_prefix(lists, c as int, evs, (p + 1) as nat));
                    }
                }
                p = p + 1;
            }
            proof {
                assert(out@ =~= candidates_upto(lists, probed@, evs, (i + 1) as nat));
            }
            i = i + 1;
        }
        out
    }

    /// The sequence numbers of the entries at the given addresses.
    fn seqs_of(&self, addrs: &[(usize, usize)]) -> (r: Vec<u64>)
        requires
            valid_addrs(self.lists_spec(), addrs@),
        ensures
            r@ == seqs_at(self.lists_spec(), addrs@),
    {
        let mut out: Vec<u64> = Vec::new();
        let mut i: usize = 0;
        while i < addrs.len()
            invariant
                i <= addrs@.len(),
                valid_addrs(self.lists_spec(), addrs@),
                out@ =~= Seq::new(i as nat, |j: int| self.lists_spec()[addrs@[j].0 as int][addrs@[j].1 as int].seq),
            decreases addrs@.len() - i,
        {
            let (c, p) = addrs[i];
            out.push(self.entry(c, p).seq);
            i = i + 1;
        }
        out
    }

    /// Hits for the chosen candidates, in the chosen order.
    fn hits_for(&self, addrs: &[(usize, usize)], dists: &Vec<u32>, chosen: &Vec<usize>) -> (r: Vec<IvfHit>)
        requires
            valid_addrs(self.lists_spec(), addrs@),
            dists@.len() == addrs@.len(),
            forall|j: int| 0 <= j < chosen@.len() ==> #[trigger] chosen@[j] < addrs@.len(),
        ensures
            hits_match(self.lists_spec(), addrs@, dists@, chosen@, r@),
    {
        let mut hits: Vec<IvfHit> = Vec::new();
        let mut j: usize = 0;
        while j < chosen.len()
            invariant
                j <= chosen@.len(),
                valid_addrs(self.lists_spec(), addrs@),
                dists@.len() == addrs@.len(),
                forall|q: int| 0 <= q < chosen@.len() ==> #[trigger] chosen@[q] < addrs@.len(),
                hits@.len() == j,
                forall|q: int| 0 <= q < j ==> {
                    let a = addrs@[chosen@[q] as int];
                    let e = self.lists_spec()[a.0 as int][a.1 as int];
                    &&& (#[trigger] hits@[q]).id@ == e.id@
                    &&& hits@[q].distance == dists@[chosen@[q] as int]
                    &&& hits@[q].metadata == e.metadata
                },
            decreases chosen@.len() - j,
        {
            let i = chosen[j];
            let (c, p) = addrs[i];
            let e = self.entry(c, p);
            hits.push(IvfHit { id: e.id.duplicate(), distance: dists[i], metadata: metadata_copy(&e.metadata) });
            j = j + 1;
        }
        hits
    }

    /// Rank candidates by their raw scores and return the `k` best as hits,
    /// best first: distances are oriented smaller-is-nearer, ties go to the
    /// lower sequence number.
    pub fn rank_hits(&self, addrs: &[(usize, usize)], raw: &[u32], k: usize) -> (r: Vec<IvfHit>)
        requires
            valid_addrs(self.lists_spec(), addrs@),
            raw@.len() == addrs@.len(),
        ensures
            exists|chosen: Seq<usize>|
                is_topk(oriented_all(self.metric_spec(), raw@), seqs_at(self.lists_spec(), addrs@), k as nat, chosen)
                && #[trigger] hits_match(self.lists_spec(), addrs@, oriented_all(self.metric_spec(), raw@), chosen, r@),
    {
        let dists = orient_all(self.metric(), raw);
        let seqs = self.seqs_of(addrs);
        let chosen = select_topk_indices(&dists, &seqs, k);
        let hits = self.hits_for(addrs, &dists, &chosen);
        proof {
            assert(hits_match(self.lists_spec(), addrs@, oriented_all(self.metric_spec(), raw@), chosen@, hits@));
        }
        hits
    }

    /// After scoring the candidates with product-quantization lookup
    /// tables: with refine factor `0` the `k` best are the answer; with a
    /// factor `N >= 1` the `min(N * k, candidates)` best are shortlisted
    /// for exact re-scoring.
    pub fn pq_step(&self, addrs: &[(usize, usize)], raw_adc: &[u32], k: usize) -> (r: PqStep)
        requires
            valid_addrs(self.lists_spec(), addrs@),
            raw_adc@.len() == addrs@.len(),
        ensures
            (self.config_spec().pq_refine_factor == 0) == (r is Hits),
            r matches PqStep::Hits(h) ==> (exists|chosen: Seq<usize>|
                is_topk(oriented_all(self.metric_spec(), raw_adc@), seqs_at(self.lists_spec(), addrs@), k as nat, chosen)
                && #[trigger] hits_match(self.lists_spec(), addrs@, oriented_all(self.metric_spec(), raw_adc@), chosen, h@)),
            r matches PqStep::Rerank(s) ==> (exists|chosen: Seq<usize>|
                #[trigger] is_topk(oriented_all(self.metric_spec(), raw_adc@), seqs_at(self.lists_spec(), addrs@),
                    shortlist_len(self.config_spec().pq_refine_factor, k, addrs@.len()), chosen)
                && s@.len() == chosen.len()
                && forall|j: int| 0 <= j < s@.len() ==> #[trigger] s@[j] == addrs@[chosen[j] as int]),
            r matches PqStep::Rerank(s) ==> s@.len() == if self.config_spec().pq_refine_factor * k < addrs@.len() {
                self.config_spec().pq_refine_factor * k
            } else {
                addrs@.len() as int
            },
            r matches PqStep::Rerank(s) ==> (self.config_spec().pq_refine_factor * k >= addrs@.len()
                ==> forall|i: int| 0 <= i < addrs@.len() ==> s@.contains(#[trigger] addrs@[i])),
    {
        let refine = self.pq_refine_factor();
        if refine == 0 {
            let hits = self.rank_hits(addrs, raw_adc, k);
            let ghost h = hits@;
            let r = PqStep::Hits(hits);
            proof {
                let chosen = choose|chosen: Seq<usize>|
                    is_topk(oriented_all(self.metric_spec(), raw_adc@), seqs_at(self.lists_spec(), addrs@), k as nat, chosen)
                    && #[trigger] hits_match(self.lists_spec(), addrs@, oriented_all(self.metric_spec(), raw_adc@), chosen, h);
                assert(is_topk(oriented_all(self.metric_spec(), raw_adc@), seqs_at(self.lists_spec(), addrs@), k as nat, chosen));
                assert(hits_match(self.lists_spec(), addrs@, oriented_all(self.metric_spec(), raw_adc@), chosen, h));
                assert(r matches PqStep::Hits(hh) && hh@ == h);
            }
            return r;
        }
        let want = match (refine as usize).checked_mul(k) {
            Some(w) => w,
            None => usize::MAX,
        };
        let len = if want < addrs.len() { want } else { addrs.len() };
        let dists = orient_all(self.metric(), raw_adc);
        let seqs = self.seqs_of(addrs);
        let chosen = select_topk_indices(&dists, &seqs, len);
        let mut short: Vec<(usize, usize)> = Vec::new();
        let mut j: usize = 0;
        while j < chosen.len()
            invariant
                j <= chosen@.len(),
                forall|q: int| 0 <= q < chosen@.len() ==> #[trigger] chosen@[q] < addrs@.len(),
                short@ =~= Seq::new(j as nat, |q: int| addrs@[chosen@[q] as int]),
            decreases chosen@.len() - j,
        {
            short.push(addrs[chosen[j]]);
            j = j + 1;
        }
        proof {
            assert(len as nat == shortlist_len(refine, k, addrs@.len())) by (nonlinear_arith)
                requires
                    want == (if refine as int * k <= usize::MAX { refine as int * k } else { usize::MAX as int }),
                    len == (if want < addrs@.len() { want as int } else { addrs@.len() as int }),
                    addrs@.len() <= usize::MAX,
            ;
            assert(is_topk(oriented_all(self.metric_spec(), raw_adc@), seqs_at(self.lists_spec(), addrs@),
                shortlist_len(self.config_spec().pq_refine_factor, k, addrs@.len()), chosen@));
            assert(short@.len() == chosen@.len());
            if refine as int * k >= addrs@.len() {
                assert forall|i: int| 0 <= i < addrs@.len() implies short@.contains(#[trigger] addrs@[i]) by {
                    lemma_topk_keeps_all(oriented_all(self.metric_spec(), raw_adc@), seqs_at(self.lists_spec(), addrs@),
                        len as nat, chosen@, i);
                    let j = choose|j: int| 0 <= j < chosen@.len() && chosen@[j] == i as usize;
                    assert(short@[j] == addrs@[i]);
                }
            }
        }
        PqStep::Rerank(short)
    }
}

/// Membership in the passing prefix of a list: the entries among the first
/// `n` of list `c` that pass the filter, each once, in list order.
pub proof fn lemma_passing_prefix<V>(lists: Seq<Seq<Entry<V>>>, c: int, ev: Option<FilterEvaluator>, n: nat)
    requires
        0 <= c < lists.len(),
        c <= usize::MAX,
        n <= lists[c].len(),
        n <= usize::MAX + 1,
    ensures
        forall|a: (usize, usize)| #[trigger] passing_prefix(lists, c, ev, n).contains(a)
            <==> (a.0 == c && a.1 < n && passes(lists[c][a.1 as int], ev)),
        forall|i: int, j: int| 0 <= i < j < passing_prefix(lists, c, ev, n).len()
            ==> (#[trigger] passing_prefix(lists, c, ev, n)[i]).1 < (#[trigger] passing_prefix(lists, c, ev, n)[j]).1,
    decreases n,
{
    if n > 0 {
        lemma_passing_prefix(lists, c, ev, (n - 1) as nat);
        let rest = passing_prefix(lists, c, ev, (n - 1) as nat);
        let cur = passing_prefix(lists, c, ev, n);
        assert forall|a: (usize, usize)| #[trigger] cur.contains(a)
            <==> (a.0 == c && a.1 < n && passes(lists[c][a.1 as int], ev)) by {
            if passes(lists[c][n - 1], ev) {
                assert(cur == rest.push((c as usize, (n - 1) as usize)));
                if cur.contains(a) && a != (c as usize, (n - 1) as usize) {
                    let w = choose|w: int| 0 <= w < cur.len() && cur[w] == a;
                    assert(rest[w] == a);
                }
                if rest.contains(a) {
                    let w = choose|w: int| 0 <= w < rest.len() && rest[w] == a;
                    assert(cur[w] == a);
                }
                if a == (c as usize, (n - 1) as usize) {
                    assert(cur[rest.len() as int] == a);
                }
            }
        }
        assert forall|i: int, j: int| 0 <= i < j < cur.len() implies (#[trigger] cur[i]).1 < (#[trigger] cur[j]).1 by {
            if passes(lists[c][n - 1], ev) && j == rest.len() {
                assert(rest.contains(cur[i]));
            }
        }
    }
}

/// Membership in the candidates of the first `i` probed lists: an address
/// is a candidate exactly when its list is among them and its entry passes
/// the filter.
pub proof fn lemma_candidates_upto<V>(lists: Seq<Seq<Entry<V>>>, probed: Seq<usize>, ev: Option<FilterEvaluator>, i: nat)
    requires
        i <= probed.len(),
        forall|j: int| 0 <= j < probed.len() ==> #[trigger] probed[j] < lists.len(),
        forall|c: int| 0 <= c < lists.len() ==> #[trigger] lists[c].len() <= usize::MAX,
    ensures
        forall|a: (usize, usize)| #[trigger] candidates_upto(lists, probed, ev, i).contains(a) <==> {
            &&& exists|m: int| 0 <= m < i && #[trigger] probed[m] == a.0
            &&& a.1 < lists[a.0 as int].len()
            &&& passes(lists[a.0 as int][a.1 as int], ev)
        },
        (forall|x: int, y: int| 0 <= x < y < i ==> #[trigger] probed[x] != #[trigger] probed[y])
            ==> candidates_upto(lists, probed, ev, i).no_duplicates(),
    decreases i,
{
    if i > 0 {
        lemma_candidates_upto(lists, probed, ev, (i - 1) as nat);
        let c = probed[i - 1] as int;
        lemma_passing_prefix(lists, c, ev, lists[c].len());
        let prev = candidates_upto(lists, probed, ev, (i - 1) as nat);
        let here = passing_prefix(lists, c, ev, lists[c].len());
        let cur = candidates_upto(lists, probed, ev, i);
        assert(cur == prev + here);
        assert forall|a: (usize, usize)| #[trigger] cur.contains(a) <==> {
            &&& exists|m: int| 0 <= m < i && #[trigger] probed[m] == a.0
            &&& a.1 < lists[a.0 as int].len()
            &&& passes(lists[a.0 as int][a.1 as int], ev)
        } by {
            if cur.contains(a) {
                let w = choose|w: int| 0 <= w < cur.len() && cur[w] == a;
                if w < prev.len() {
                    assert(prev[w] == a);
                    assert(prev.contains(a));
                } else {
                    assert(here[w - prev.len()] == a);
                    assert(here.contains(a));
                    assert(probed[i - 1] == a.0);
                }
            }
            if exists|m: int| 0 <= m < i && #[trigger] probed[m] == a.0 {
                if a.1 < lists[a.0 as int].len() && passes(lists[a.0 as int][a.1 as int], ev) {
                    let m = choose|m: int| 0 <= m < i && #[trigger] probed[m] == a.0;
                    if m < i - 1 {
                        assert(prev.contains(a));
                        let w = choose|w: int| 0 <= w < prev.len() && prev[w] == a;
                        assert(cur[w] == a);
                    } else {
                        assert(here.contains(a));
                        let w = choose|w: int| 0 <= w < here.len() && here[w] == a;
                        assert(cur[prev.len() + w] == a);
                    }
                }
            }
        }
        if forall|x: int, y: int| 0 <= x < y < i ==> #[trigger] probed[x] != #[trigger] probed[y] {
            assert forall|x: int, y: int| 0 <= x < y < cur.len() implies cur[x] != cur[y] by {
                if y < prev.len() {
                    assert(cur[x] == prev[x] && cur[y] == prev[y]);
                } else if x >= prev.len() {
                    assert(cur[x] == here[x - prev.len()] && cur[y] == here[y - prev.len()]);
                } else {
                    assert(cur[x] == prev[x] && cur[y] == here[y - prev.len()]);
                    assert(prev.contains(cur[x]));
                    assert(here.contains(cur[y]));
                    if cur[x] == cur[y] {
                        let m = choose|m: int| 0 <= m < i - 1 && #[trigger] probed[m] == cur[x].0;
                        assert(probed[m] != probed[i - 1]);
                    }
                }
            }
        }
    }
}

/// The candidates of a query are exactly the entries of the probed lists
/// that pass the filter; each appears once when no list is probed twice.
pub proof fn lemma_candidates<V>(lists: Seq<Seq<Entry<V>>>, probed: Seq<usize>, ev: Option<FilterEvaluator>)
    requires
        forall|j: int| 0 <= j < probed.len() ==> #[trigger] probed[j] < lists.len(),
        forall|c: int| 0 <= c < lists.len() ==> #[trigger] lists[c].len() <= usize::MAX,
    ensures
        forall|a: (usize, usize)| #[trigger] candidates(lists, probed, ev).contains(a) <==> {
            &&& probed.contains(a.0)
            &&& a.1 < lists[a.0 as int].len()
            &&& passes(lists[a.0 as int][a.1 as int], ev)
        },
        probed.no_duplicates() ==> candidates(lists, probed, ev).no_duplicates(),
{
    if probed.no_duplicates() {
        assert forall|x: int, y: int| 0 <= x < y < probed.len() implies #[trigger] probed[x] != #[trigger] probed[y] by {}
    }
    lemma_candidates_upto(lists, probed, ev, probed.len());
    assert forall|a: (usize, usize)| #[trigger] candidates(lists, probed, ev).contains(a) <==> {
        &&& probed.contains(a.0)
        &&& a.1 < lists[a.0 as int].len()
        &&& passes(lists[a.0 as int][a.1 as int], ev)
    } by {
        if probed.contains(a.0) {
            let m = choose|m: int| 0 <= m < probed.len() && probed[m] == a.0;
            assert(probed[m] == a.0);
        }
    }
}

/// With every list probed (as when `n_probes == n_clusters`), the
/// candidates of a query are every entry that passes the filter, each
/// exactly once: the scan is exhaustive.
pub proof fn lemma_full_probe_candidates<V>(lists: Seq<Seq<Entry<V>>>, probed: Seq<usize>, ev: Option<FilterEvaluator>)
    requires
        probed.len() == lists.len(),
        lists.len() <= usize::MAX,
        probed.no_duplicates(),
        forall|j: int| 0 <= j < probed.len() ==> #[trigger] probed[j] < lists.len(),
        forall|c: int| 0 <= c < lists.len() ==> #[trigger] lists[c].len() <= usize::MAX,
    ensures
        candidates(lists, probed, ev).no_duplicates(),
        forall|c: int, p: int| 0 <= c < lists.len() && 0 <= p < lists[c].len()
            ==> (#[trigger] candidates(lists, probed, ev).contains((c as usize, p as usize)) <==> passes(lists[c][p], ev)),
{
    lemma_candidates(lists, probed, ev);
    assert forall|c: int, p: int| 0 <= c < lists.len() && 0 <= p < lists[c].len()
        implies (#[trigger] candidates(lists, probed, ev).contains((c as usize, p as usize)) <==> passes(lists[c][p], ev)) by {
        lemma_probes_cover(probed, lists.len(), c);
    }
}

/// `n` distinct values below `n` include every value below `n`.
proof fn lemma_probes_cover(probed: Seq<usize>, n: nat, c: int)
    requires
        probed.len() == n,
        n <= usize::MAX,
        probed.no_duplicates(),
        forall|j: int| 0 <= j < probed.len() ==> #[trigger] probed[j] < n,
        0 <= c < n,
    ensures
        probed.contains(c as usize),
{
    let s = probed.to_set();
    probed.unique_seq_to_set();
    let range = vstd::set_lib::set_int_range(0, n as int);
    let f = |x: int| x as usize;
    let full = range.map(f);
    vstd::set_lib::lemma_int_range(0, n as int);
    assert(vstd::relations::injective_on(f, range)) by {
        assert forall|x1: int, x2: int| range.contains(x1) && range.contains(x2) && #[trigger] f(x1) == #[trigger] f(x2)
            implies x1 == x2 by {}
    }
    vstd::set_lib::lemma_map_size(range, full, f);
    assert(s.subset_of(full)) by {
        assert forall|x: usize| s.contains(x) implies full.contains(x) by {
            let w = choose|w: int| 0 <= w < probed.len() && probed[w] == x;
            assert(range.contains(x as int));
            assert(f(x as int) == x);
        }
    }
    if !probed.contains(c as usize) {
        assert(range.contains(c));
        assert(f(c) == c as usize);
        assert(full.contains(c as usize));
        assert(s.subset_of(full.remove(c as usize))) by {
            assert forall|x: usize| s.contains(x) implies full.remove(c as usize).contains(x) by {
                let w = choose|w: int| 0 <= w < probed.len() && probed[w] == x;
                assert(probed.contains(x));
            }
        }
        vstd::set_lib::lemma_len_subset(s, full.remove(c as usize));
    }
}

/// The candidates `chosen` picks out of `addrs`, in the chosen order.
pub open spec fn ranked_addrs(addrs: Seq<(usize, usize)>, chosen: Seq<usize>) -> Seq<(usize, usize)> {
    Seq::new(chosen.len(), |j: int| addrs[chosen[j] as int])
}

/// Two enumerations of the same entries give each entry the same distance.
pub open spec fn same_scores(a1: Seq<(usize, usize)>, d1: Seq<u32>, a2: Seq<(usize, usize)>, d2: Seq<u32>) -> bool {
    forall|i: int, j: int| 0 <= i < a1.len() && 0 <= j < a2.len() && #[trigger] a1[i] == #[trigger] a2[j] ==> d1[i] == d2[j]
}

/// The position of `x` in `a`.
pub open spec fn index_in(a: Seq<(usize, usize)>, x: (usize, usize)) -> int {
    choose|i: int| 0 <= i < a.len() && a[i] == x
}

/// Two enumerations give the same entry the same sequence number.
pub open spec fn same_seqs(a1: Seq<(usize, usize)>, s1: Seq<u64>, a2: Seq<(usize, usize)>, s2: Seq<u64>) -> bool {
    forall|i: int, j: int| 0 <= i < a1.len() && 0 <= j < a2.len() && #[trigger] a1[i] == #[trigger] a2[j] ==> s1[i] == s2[j]
}

/// A top-`k` selection over one enumeration of a set of candidates,
/// carried over to another enumeration of the same candidates, is a top-`k`
/// selection there and picks the same candidates in the same order.
#[verifier::spinoff_prover]
proof fn lemma_transport_topk(
    a1: Seq<(usize, usize)>,
    d1: Seq<u32>,
    s1: Seq<u64>,
    a2: Seq<(usize, usize)>,
    d2: Seq<u32>,
    s2: Seq<u64>,
    c2: Seq<usize>,
    k: nat,
) -> (c2t: Seq<usize>)
    requires
        a1.no_duplicates(),
        a2.no_duplicates(),
        a1.len() <= usize::MAX,
        a1.len() == a2.len(),
        a1.to_set() == a2.to_set(),
        d1.len() == a1.len(),
        s1.len() == a1.len(),
        d2.len() == a2.len(),
        s2.len() == a2.len(),
        same_scores(a1, d1, a2, d2),
        same_seqs(a1, s1, a2, s2),
        is_topk(d2, s2, k, c2),
    ensures
        is_topk(d1, s1, k, c2t),
        ranked_addrs(a1, c2t) == ranked_addrs(a2, c2),
{
    assert forall|j: int| #![trigger a2[j]] 0 <= j < a2.len() implies
        0 <= index_in(a1, a2[j]) < a1.len() && a1[index_in(a1, a2[j])] == a2[j] by {
        assert(a2.to_set().contains(a2[j]));
        assert(a1.to_set().contains(a2[j]));
    }
    let c2t = Seq::new(c2.len(), |m: int| index_in(a1, a2[c2[m] as int]) as usize);
    assert forall|m: int| 0 <= m < c2.len() implies
        a1[#[trigger] c2t[m] as int] == a2[c2[m] as int] && c2t[m] < a1.len() by {
        assert(c2[m] < a2.len());
        assert(0 <= index_in(a1, a2[c2[m] as int]) < a1.len());
    }
    assert forall|j: int| 0 <= j < c2t.len() implies #[trigger] c2t[j] < d1.len() by {
        assert(c2t[j] < a1.len());
    }
    assert forall|j1: int, j2: int| 0 <= j1 < j2 < c2t.len() implies #[trigger] c2t[j1] != #[trigger] c2t[j2] by {
        assert(a1[c2t[j1] as int] == a2[c2[j1] as int]);
        assert(a1[c2t[j2] as int] == a2[c2[j2] as int]);
        assert(c2[j1] != c2[j2]);
    }
    assert forall|j1: int, j2: int| 0 <= j1 < j2 < c2t.len() implies
        !cand_before(d1, s1, #[trigger] c2t[j2] as int, #[trigger] c2t[j1] as int) by {
        assert(a1[c2t[j1] as int] == a2[c2[j1] as int]);
        assert(a1[c2t[j2] as int] == a2[c2[j2] as int]);
        assert(!cand_before(d2, s2, c2[j2] as int, c2[j1] as int));
    }
    assert forall|i: int, j: int|
        #![trigger d1[i], c2t[j]]
        0 <= i < d1.len() && !c2t.contains(i as usize) && 0 <= j < c2t.len()
            implies !cand_before(d1, s1, i, c2t[j] as int) by {
        assert(a1.to_set().contains(a1[i]));
        assert(a2.to_set().contains(a1[i]));
        let jj = choose|jj: int| 0 <= jj < a2.len() && a2[jj] == a1[i];
        assert(a1[c2t[j] as int] == a2[c2[j] as int]);
        if c2.contains(jj as usize) {
            let m = choose|m: int| 0 <= m < c2.len() && c2[m] == jj as usize;
            assert(a1[c2t[m] as int] == a2[jj]);
            assert(c2t[m] as int == i);
        }
        assert(d2[jj] == d2[jj]);
        assert(c2[j] == c2[j]);
        assert(!cand_before(d2, s2, jj, c2[j] as int));
    }
    assert(ranked_addrs(a1, c2t) =~= ranked_addrs(a2, c2));
    c2t
}

impl<V> IvfIndex<V> {
    /// Distinct addresses of stored entries carry distinct sequence numbers.
    pub proof fn lemma_seqs_at_distinct(&self, addrs: Seq<(usize, usize)>)
        requires
            self.wf(),
            valid_addrs(self.lists_spec(), addrs),
            addrs.no_duplicates(),
        ensures
            seqs_at(self.lists_spec(), addrs).no_duplicates(),
    {
        let s = seqs_at(self.lists_spec(), addrs);
        assert forall|i: int, j: int| 0 <= i < s.len() && 0 <= j < s.len() && i != j implies s[i] != s[j] by {
            let (c1, p1) = addrs[i];
            let (c2, p2) = addrs[j];
            assert(addrs[i] != addrs[j]);
            self.lemma_entries_distinct(c1 as int, p1 as int, c2 as int, p2 as int);
        }
    }

    /// Distinct addresses of stored entries are at most as many as the live
    /// vectors.
    pub proof fn lemma_addrs_bounded(&self, addrs: Seq<(usize, usize)>)
        requires
            self.wf(),
            valid_addrs(self.lists_spec(), addrs),
            addrs.no_duplicates(),
        ensures
            addrs.len() <= self.contents().len(),
    {
        self.lemma_wf_lists();
        let lists = self.lists_spec();
        let ids = addrs.map_values(|a: (usize, usize)| lists[a.0 as int][a.1 as int].id@);
        assert(ids.no_duplicates()) by {
            assert forall|i: int, j: int| 0 <= i < ids.len() && 0 <= j < ids.len() && i != j implies ids[i] != ids[j] by {
                let (c1, p1) = addrs[i];
                let (c2, p2) = addrs[j];
                assert(addrs[i] != addrs[j]);
                self.lemma_entries_distinct(c1 as int, p1 as int, c2 as int, p2 as int);
            }
        }
        ids.unique_seq_to_set();
        assert(ids.to_set().subset_of(self.contents().dom())) by {
            assert forall|k: IdView| ids.to_set().contains(k) implies self.contents().dom().contains(k) by {
                let i = choose|i: int| 0 <= i < ids.len() && ids[i] == k;
                let (c, p) = addrs[i];
                assert(self.has(lists[c as int][p as int].id@));
            }
        }
        vstd::set_lib::lemma_len_subset(ids.to_set(), self.contents().dom());
    }

    /// Selecting probes with `n_probes == n_clusters` probes every list once.
    pub proof fn lemma_select_all_probes(&self, dists: Seq<u32>, probed: Seq<usize>)
        requires
            self.wf(),
            self.config_spec().n_probes == self.config_spec().n_clusters,
            dists.len() == self.config_spec().n_clusters,
            is_topk(dists, list_ids(dists.len()), self.config_spec().n_probes as nat, probed),
        ensures
            probed.len() == self.lists_spec().len(),
            probed.no_duplicates(),
            forall|j: int| 0 <= j < probed.len() ==> #[trigger] probed[j] < self.lists_spec().len(),
    {
        self.lemma_wf_lists();
        assert forall|i: int, j: int| 0 <= i < probed.len() && 0 <= j < probed.len() && i != j implies probed[i] != probed[j] by {
            if i < j {
                assert(probed[i] != probed[j]);
            } else {
                assert(probed[j] != probed[i]);
            }
        }
    }

    /// With every list probed, search is exhaustive: the hits rank the same
    /// entries, in the same order, as ranking every live entry that passes
    /// the filter, enumerated in any order, with the same distances.
    pub proof fn lemma_full_probe_is_exhaustive(
        &self,
        probed: Seq<usize>,
        ev: Option<FilterEvaluator>,
        d: Seq<u32>,
        chosen: Seq<usize>,
        all: Seq<(usize, usize)>,
        d_all: Seq<u32>,
        chosen_all: Seq<usize>,
        k: nat,
    )
        requires
            self.wf(),
            probed.len() == self.lists_spec().len(),
            probed.no_duplicates(),
            forall|j: int| 0 <= j < probed.len() ==> #[trigger] probed[j] < self.lists_spec().len(),
            valid_addrs(self.lists_spec(), all),
            all.no_duplicates(),
            forall|i: int| 0 <= i < all.len() ==> passes(self.lists_spec()[(#[trigger] all[i]).0 as int][all[i].1 as int], ev),
            forall|c: int, p: int| 0 <= c < self.lists_spec().len() && 0 <= p < self.lists_spec()[c].len()
                && passes(self.lists_spec()[c][p], ev) ==> #[trigger] all.contains((c as usize, p as usize)),
            d.len() == candidates(self.lists_spec(), probed, ev).len(),
            d_all.len() == all.len(),
            same_scores(candidates(self.lists_spec(), probed, ev), d, all, d_all),
            is_topk(d, seqs_at(self.lists_spec(), candidates(self.lists_spec(), probed, ev)), k, chosen),
            is_topk(d_all, seqs_at(self.lists_spec(), all), k, chosen_all),
        ensures
            ranked_addrs(candidates(self.lists_spec(), probed, ev), chosen) == ranked_addrs(all, chosen_all),
    {
        self.lemma_wf_lists();
        let lists = self.lists_spec();
        let cands = candidates(lists, probed, ev);
        lemma_full_probe_candidates(lists, probed, ev);
        lemma_candidates(lists, probed, ev);
        assert(valid_addrs(lists, cands)) by {
            assert forall|i: int| 0 <= i < cands.len() implies
                (#[trigger] cands[i]).0 < lists.len() && cands[i].1 < lists[cands[i].0 as int].len() by {
                assert(cands.contains(cands[i]));
                let m = choose|m: int| 0 <= m < probed.len() && probed[m] == cands[i].0;
            }
        }
        self.lemma_addrs_bounded(cands);
        assert(cands.to_set() =~= all.to_set()) by {
            assert forall|a: (usize, usize)| cands.to_set().contains(a) <==> all.to_set().contains(a) by {
                if cands.contains(a) {
                    assert(probed.contains(a.0));
                    let m = choose|m: int| 0 <= m < probed.len() && probed[m] == a.0;
                    assert(all.contains((a.0 as int as usize, a.1 as int as usize)));
                }
                if all.contains(a) {
                    let i = choose|i: int| 0 <= i < all.len() && all[i] == a;
                    assert(cands.contains((a.0 as int as usize, a.1 as int as usize)));
                }
            }
        }
        self.lemma_ranking_order_independent(cands, d, chosen, all, d_all, chosen_all, k);
    }

    /// The hits of a ranking are at most `k` and at most the live count,
    /// best first in the total order of `f32` distances, with distinct live
    /// identifiers.
    pub proof fn lemma_hits_shape(
        &self,
        addrs: Seq<(usize, usize)>,
        raw: Seq<u32>,
        k: nat,
        chosen: Seq<usize>,
        hits: Seq<IvfHit>,
    )
        requires
            self.wf(),
            valid_addrs(self.lists_spec(), addrs),
            addrs.no_duplicates(),
            raw.len() == addrs.len(),
            is_topk(oriented_all(self.metric_spec(), raw), seqs_at(self.lists_spec(), addrs), k, chosen),
            hits_match(self.lists_spec(), addrs, oriented_all(self.metric_spec(), raw), chosen, hits),
        ensures
            hits.len() == min_nat(k, addrs.len()),
            hits.len() <= self.contents().len(),
            forall|j1: int, j2: int| 0 <= j1 < j2 < hits.len()
                ==> total_key(#[trigger] hits[j1].distance) <= total_key(#[trigger] hits[j2].distance),
            forall|j1: int, j2: int| 0 <= j1 < hits.len() && 0 <= j2 < hits.len() && j1 != j2
                ==> #[trigger] hits[j1].id@ != #[trigger] hits[j2].id@,
            forall|j: int| 0 <= j < hits.len() ==> self.has(#[trigger] hits[j].id@),
    {
        self.lemma_wf_lists();
        let lists = self.lists_spec();
        let d = oriented_all(self.metric_spec(), raw);
        self.lemma_addrs_bounded(addrs);
        assert forall|j1: int, j2: int| 0 <= j1 < j2 < hits.len()
            implies total_key(#[trigger] hits[j1].distance) <= total_key(#[trigger] hits[j2].distance) by {
            lemma_topk_sorted(d, seqs_at(lists, addrs), k, chosen, j1, j2);
        }
        assert forall|j1: int, j2: int| 0 <= j1 < hits.len() && 0 <= j2 < hits.len() && j1 != j2
            implies #[trigger] hits[j1].id@ != #[trigger] hits[j2].id@ by {
            let x1 = chosen[j1] as int;
            let x2 = chosen[j2] as int;
            if j1 < j2 {
                assert(chosen[j1] != chosen[j2]);
            } else {
                assert(chosen[j2] != chosen[j1]);
            }
            assert(addrs[x1] != addrs[x2]);
            self.lemma_entries_distinct(addrs[x1].0 as int, addrs[x1].1 as int, addrs[x2].0 as int, addrs[x2].1 as int);
        }
        assert forall|j: int| 0 <= j < hits.len() implies self.has(#[trigger] hits[j].id@) by {
            let a = addrs[chosen[j] as int];
            assert(self.has(lists[a.0 as int][a.1 as int].id@));
        }
    }

    /// Every hit of a filtered query carries metadata the filter admits and
    /// comes from an entry that is also a candidate of the same query
    /// without the filter.
    pub proof fn lemma_filtered_hits(
        &self,
        probed: Seq<usize>,
        f: FilterEvaluator,
        dists: Seq<u32>,
        chosen: Seq<usize>,
        hits: Seq<IvfHit>,
    )
        requires
            self.wf(),
            forall|j: int| 0 <= j < probed.len() ==> #[trigger] probed[j] < self.lists_spec().len(),
            forall|j: int| 0 <= j < chosen.len() ==> #[trigger] chosen[j] < candidates(self.lists_spec(), probed, Some(f)).len(),
            hits_match(self.lists_spec(), candidates(self.lists_spec(), probed, Some(f)), dists, chosen, hits),
        ensures
            forall|j: int| 0 <= j < hits.len() ==> filter_admits(f, (#[trigger] hits[j]).metadata),
            forall|j: int| 0 <= j < hits.len() ==> candidates(self.lists_spec(), probed, None).contains(
                #[trigger] candidates(self.lists_spec(), probed, Some(f))[chosen[j] as int]),
    {
        self.lemma_wf_lists();
        let lists = self.lists_spec();
        lemma_candidates(lists, probed, Some(f));
        lemma_candidates(lists, probed, None);
        let cf = candidates(lists, probed, Some(f));
        assert forall|j: int| 0 <= j < hits.len() implies filter_admits(f, (#[trigger] hits[j]).metadata) by {
            assert(cf.contains(cf[chosen[j] as int]));
        }
        assert forall|j: int| 0 <= j < hits.len() implies candidates(lists, probed, None).contains(
            #[trigger] cf[chosen[j] as int]) by {
            assert(cf.contains(cf[chosen[j] as int]));
        }
    }

    /// The refine step cannot let a filtered-out entry through: when the
    /// shortlist is drawn from the candidates of a filtered query, every hit
    /// ranked from it carries metadata the filter admits.
    pub proof fn lemma_refined_hits_pass(
        &self,
        probed: Seq<usize>,
        f: FilterEvaluator,
        shortlist: Seq<(usize, usize)>,
        dists: Seq<u32>,
        chosen: Seq<usize>,
        hits: Seq<IvfHit>,
    )
        requires
            self.wf(),
            forall|j: int| 0 <= j < probed.len() ==> #[trigger] probed[j] < self.lists_spec().len(),
            forall|j: int| 0 <= j < shortlist.len() ==> candidates(self.lists_spec(), probed, Some(f)).contains(
                #[trigger] shortlist[j]),
            forall|j: int| 0 <= j < chosen.len() ==> #[trigger] chosen[j] < shortlist.len(),
            hits_match(self.lists_spec(), shortlist, dists, chosen, hits),
        ensures
            forall|j: int| 0 <= j < hits.len() ==> filter_admits(f, (#[trigger] hits[j]).metadata),
    {
        self.lemma_wf_lists();
        lemma_candidates(self.lists_spec(), probed, Some(f));
        assert forall|j: int| 0 <= j < hits.len() implies filter_admits(f, (#[trigger] hits[j]).metadata) by {
            assert(candidates(self.lists_spec(), probed, Some(f)).contains(shortlist[chosen[j] as int]));
        }
    }

    /// Ranking does not depend on how the candidates are enumerated: two
    /// enumerations of the same stored entries, in which every entry has the
    /// same distance, rank the same entries in the same order.
    pub proof fn lemma_ranking_order_independent(
        &self,
        a1: Seq<(usize, usize)>,
        d1: Seq<u32>,
        c1: Seq<usize>,
        a2: Seq<(usize, usize)>,
        d2: Seq<u32>,
        c2: Seq<usize>,
        k: nat,
    )
        requires
            self.wf(),
            valid_addrs(self.lists_spec(), a1),
            valid_addrs(self.lists_spec(), a2),
            a1.no_duplicates(),
            a2.no_duplicates(),
            a1.len() <= usize::MAX,
            a1.to_set() == a2.to_set(),
            d1.len() == a1.len(),
            d2.len() == a2.len(),
            same_scores(a1, d1, a2, d2),
            is_topk(d1, seqs_at(self.lists_spec(), a1), k, c1),
            is_topk(d2, seqs_at(self.lists_spec(), a2), k, c2),
        ensures
            ranked_addrs(a1, c1) == ranked_addrs(a2, c2),
    {
        let lists = self.lists_spec();
        let s1 = seqs_at(lists, a1);
        let s2 = seqs_at(lists, a2);
        self.lemma_seqs_at_distinct(a1);
        a1.unique_seq_to_set();
        a2.unique_seq_to_set();
        assert(same_seqs(a1, s1, a2, s2));
        let c2t = lemma_transport_topk(a1, d1, s1, a2, d2, s2, c2, k);
        lemma_topk_unique(d1, s1, k, c1, c2t);
    }
}

} // verus!
