//! The decisions of retraining: which stored vectors the new centroids are
//! trained on.
//!
//! Retraining orders the stored entries by their insertion-sequence numbers,
//! so that the working set depends only on which entries are live and not
//! on where deletes have moved them inside their lists, and then subsamples
//! that order down to the configured training-sample size with a generator
//! seeded by the configured seed.

use vstd::prelude::*;
use crate::error::IvfError;
use crate::id::IdView;
use crate::index::{Entry, IvfIndex};
use crate::rng::{subsample_indices, subsample_spec, SplitMix64};
use crate::search::valid_addrs;
use crate::topk::min_nat;

verus! {

/// The key retraining orders entries by: the sequence number of the entry
/// at `a`, then its list, then its position.
pub open spec fn retrain_key<V>(lists: Seq<Seq<Entry<V>>>, a: (usize, usize)) -> (u64, usize, usize) {
    (lists[a.0 as int][a.1 as int].seq, a.0, a.1)
}

/// Lexicographic order on retraining keys.
pub open spec fn key_lt(x: (u64, usize, usize), y: (u64, usize, usize)) -> bool {
    x.0 < y.0 || (x.0 == y.0 && (x.1 < y.1 || (x.1 == y.1 && x.2 < y.2)))
}

/// `addrs` names every entry of `lists` exactly once, in ascending order of
/// sequence number (ties, which a well-formed index does not have, by
/// address).
pub open spec fn in_seq_order<V>(lists: Seq<Seq<Entry<V>>>, addrs: Seq<(usize, usize)>) -> bool {
    &&& valid_addrs(lists, addrs)
    &&& forall|i: int, j: int| 0 <= i < j < addrs.len()
        ==> key_lt(retrain_key(lists, #[trigger] addrs[i]), retrain_key(lists, #[trigger] addrs[j]))
    &&& forall|c: int, p: int| 0 <= c < lists.len() && 0 <= p < lists[c].len() ==> #[trigger] addr_listed(addrs, c, p)
}

/// The address `(c, p)` occurs in `addrs`.
pub open spec fn addr_listed(addrs: Seq<(usize, usize)>, c: int, p: int) -> bool {
    exists|i: int| 0 <= i < addrs.len() && addrs[i] == (c as usize, p as usize)
}

/// The key of the entry at `(c, p)` occurs in `keys`.
pub open spec fn key_listed<V>(keys: Seq<(u64, usize, usize)>, lists: Seq<Seq<Entry<V>>>, c: int, p: int) -> bool {
    exists|i: int| 0 <= i < keys.len() && keys[i] == retrain_key(lists, (c as usize, p as usize))
}

/// `w` is picked out of `order` by the partial Fisher-Yates subsample of
/// `cap` positions with a generator seeded by `seed`.
pub open spec fn picks_from(order: Seq<(usize, usize)>, w: Seq<(usize, usize)>, cap: usize, seed: u64) -> bool {
    let picks = subsample_spec(order.len(), cap as nat, seed);
    &&& w.len() == picks.len()
    &&& forall|j: int| 0 <= j < w.len() ==> #[trigger] w[j] == order[picks[j] as int]
}

/// `w` is the working set retraining picks from `lists` with cap `cap` and
/// seed `seed`: the subsample of the entries in ascending order of sequence
/// number.
pub open spec fn retrain_working_set<V>(lists: Seq<Seq<Entry<V>>>, w: Seq<(usize, usize)>, cap: usize, seed: u64) -> bool {
    exists|order: Seq<(usize, usize)>| #[trigger] in_seq_order(lists, order) && picks_from(order, w, cap, seed)
}

/// Keys in strictly ascending order.
pub open spec fn keys_sorted(keys: Seq<(u64, usize, usize)>) -> bool {
    forall|i: int, j: int| 0 <= i < j < keys.len() ==> key_lt(#[trigger] keys[i], #[trigger] keys[j])
}

/// Whether `x` comes before `y` in retraining order.
fn key_less(x: (u64, usize, usize), y: (u64, usize, usize)) -> (r: bool)
    ensures
        r == key_lt(x, y),
{
    x.0 < y.0 || (x.0 == y.0 && (x.1 < y.1 || (x.1 == y.1 && x.2 < y.2)))
}

/// Where `k` goes in the sorted `keys`: after every smaller key, before
/// every other.
fn insertion_point(keys: &Vec<(u64, usize, usize)>, k: (u64, usize, usize)) -> (r: usize)
    requires
        keys_sorted(keys@),
    ensures
        r <= keys@.len(),
        forall|i: int| 0 <= i < r ==> key_lt(#[trigger] keys@[i], k),
        forall|i: int| r <= i < keys@.len() ==> !key_lt(#[trigger] keys@[i], k),
{
    let mut i: usize = 0;
    while i < keys.len()
        invariant
            i <= keys@.len(),
            keys_sorted(keys@),
            forall|j: int| 0 <= j < i ==> key_lt(#[trigger] keys@[j], k),
        decreases keys@.len() - i,
    {
        if !key_less(keys[i], k) {
            assert forall|j: int| i <= j < keys@.len() implies !key_lt(#[trigger] keys@[j], k) by {
                if j > i {
                    assert(key_lt(keys@[i as int], keys@[j]));
                }
            }
            return i;
        }
        i = i + 1;
    }
    i
}

impl<V> IvfIndex<V> {
    /// The address of every stored entry, in ascending order of sequence
    /// number.
    pub fn addrs_in_seq_order(&self) -> (r: Vec<(usize, usize)>)
        requires
            self.wf(),
        ensures
            in_seq_order(self.lists_spec(), r@),
    {
        proof {
            self.lemma_wf_lists();
        }
        let ghost lists = self.lists_spec();
        let n = self.config().n_clusters;
        let mut keys: Vec<(u64, usize, usize)> = Vec::new();
        let mut c: usize = 0;
        while c < n
            invariant
                lists == self.lists_spec(),
                n == lists.len(),
                c <= n,
                keys_sorted(keys@),
                forall|i: int| 0 <= i < keys@.len() ==> {
                    let k = #[trigger] keys@[i];
                    &&& k.1 < c
                    &&& k.2 < lists[k.1 as int].len()
                    &&& k == retrain_key(lists, (k.1, k.2))
                },
                forall|cc: int, p: int| 0 <= cc < c && 0 <= p < lists[cc].len()
                    ==> #[trigger] key_listed(keys@, lists, cc, p),
            decreases n - c,
        {
            let list = self.list(c);
            let mut p: usize = 0;
            while p < list.len()
                invariant
                    lists == self.lists_spec(),
                    n == lists.len(),
                    c < n,
                    list@ == lists[c as int],
                    p <= list@.len(),
                    keys_sorted(keys@),
                    forall|i: int| 0 <= i < keys@.len() ==> {
                        let k = #[trigger] keys@[i];
                        &&& (k.1 < c || (k.1 == c && k.2 < p))
                        &&& k.2 < lists[k.1 as int].len()
                        &&& k == retrain_key(lists, (k.1, k.2))
                    },
                    forall|cc: int, q: int|
                        (0 <= cc < c && 0 <= q < lists[cc].len()) || (cc == c && 0 <= q < p)
                        ==> #[trigger] key_listed(keys@, lists, cc, q),
                decreases list@.len() - p,
            {
                let k = (list[p].seq, c, p);
                assert(k == retrain_key(lists, (c, p)));
                let pos = insertion_point(&keys, k);
                let ghost old_keys = keys@;
                keys.insert(pos, k);
                proof {
                    assert(keys@ == old_keys.insert(pos as int, k));
                    assert forall|i: int| 0 <= i < old_keys.len() implies #[trigger] old_keys[i] != k by {
                        let ok = old_keys[i];
                        assert(ok.1 < c || (ok.1 == c && ok.2 < p));
                    }
                    assert forall|i: int, j: int| 0 <= i < j < keys@.len() implies key_lt(#[trigger] keys@[i], #[trigger] keys@[j]) by {
                        if j < pos {
                            assert(keys@[i] == old_keys[i] && keys@[j] == old_keys[j]);
                        } else if j == pos {
                            assert(keys@[i] == old_keys[i]);
                        } else if i < pos {
                            assert(keys@[i] == old_keys[i] && keys@[j] == old_keys[j - 1]);
                            assert(!key_lt(old_keys[j - 1], k));
                            assert(old_keys[j - 1] != k);
                        } else if i == pos {
                            assert(keys@[j] == old_keys[j - 1]);
                            assert(!key_lt(old_keys[j - 1], k));
                            assert(old_keys[j - 1] != k);
                        } else {
                            assert(keys@[i] == old_keys[i - 1] && keys@[j] == old_keys[j - 1]);
                        }
                    }
                    assert forall|i: int| 0 <= i < keys@.len() implies {
                        let kk = #[trigger] keys@[i];
                        &&& (kk.1 < c || (kk.1 == c && kk.2 < p + 1))
                        &&& kk.2 < lists[kk.1 as int].len()
                        &&& kk == retrain_key(lists, (kk.1, kk.2))
                    } by {
                        if i < pos {
                            assert(keys@[i] == old_keys[i]);
                        } else if i > pos {
                            assert(keys@[i] == old_keys[i - 1]);
                        }
                    }
                    assert forall|cc: int, q: int|
                        (0 <= cc < c && 0 <= q < lists[cc].len()) || (cc == c && 0 <= q < p + 1)
                        implies #[trigger] key_listed(keys@, lists, cc, q) by {
                        if cc == c && q == p {
                            assert(keys@[pos as int] == k);
                        } else {
                            assert(key_listed(old_keys, lists, cc, q));
                            let i = choose|i: int| 0 <= i < old_keys.len() && #[trigger] old_keys[i] == retrain_key(lists, (cc as usize, q as usize));
                            if i < pos {
                                assert(keys@[i] == old_keys[i]);
                            } else {
                                assert(keys@[i + 1] == old_keys[i]);
                            }
                        }
                    }
                }
                p = p + 1;
            }
            c = c + 1;
        }
        let mut out: Vec<(usize, usize)> = Vec::new();
        let mut i: usize = 0;
        while i < keys.len()
            invariant
                i <= keys@.len(),
                out@ =~= Seq::new(i as nat, |j: int| (keys@[j].1, keys@[j].2)),
            decreases keys@.len() - i,
        {
            out.push((keys[i].1, keys[i].2));
            i = i + 1;
        }
        proof {
            assert forall|j: int| 0 <= j < out@.len() implies retrain_key(lists, #[trigger] out@[j]) == keys@[j] by {
                let k = keys@[j];
                assert(k == retrain_key(lists, (k.1, k.2)));
            }
            assert forall|a: int, b: int| 0 <= a < b < out@.len()
                implies key_lt(retrain_key(lists, #[trigger] out@[a]), retrain_key(lists, #[trigger] out@[b])) by {
                assert(retrain_key(lists, out@[a]) == keys@[a]);
                assert(retrain_key(lists, out@[b]) == keys@[b]);
            }
            assert forall|j: int| 0 <= j < out@.len()
                implies (#[trigger] out@[j]).0 < lists.len() && out@[j].1 < lists[out@[j].0 as int].len() by {
                let k = keys@[j];
                assert(k.2 < lists[k.1 as int].len());
            }
            assert forall|cc: int, q: int| 0 <= cc < lists.len() && 0 <= q < lists[cc].len()
                implies #[trigger] addr_listed(out@, cc, q) by {
                assert(key_listed(keys@, lists, cc, q));
                let j = choose|j: int| 0 <= j < keys@.len() && #[trigger] keys@[j] == retrain_key(lists, (cc as usize, q as usize));
                assert(out@[j] == (cc as usize, q as usize));
            }
        }
        out
    }

    /// Start retraining: refuse an untrained index, do nothing for an empty
    /// one (`Ok(None)`), and otherwise pick the working set the new
    /// centroids are trained on: the addresses of
    /// `min(len(), training_sample_size)` stored entries, chosen from the
    /// entries in ascending order of sequence number by the partial
    /// Fisher-Yates subsample with a generator seeded by the configured seed
    /// (every entry, in that order, when the cap is not below `len()`).
    pub fn begin_retrain(&self) -> (r: Result<Option<Vec<(usize, usize)>>, IvfError>)
        requires
            self.wf(),
        ensures
            !self.trained_spec() ==> r == Err::<Option<Vec<(usize, usize)>>, IvfError>(
                IvfError::InvalidConfig { reason: "IvfIndex must be trained before retrain()" }),
            self.trained_spec() && self.contents().len() == 0 ==> r == Ok::<Option<Vec<(usize, usize)>>, IvfError>(None),
            self.trained_spec() && self.contents().len() > 0 ==> (r matches Ok(Some(w)) && {
                &&& retrain_working_set(self.lists_spec(), w@, self.config_spec().training_sample_size,
                    self.config_spec().seed)
                &&& w@.len() == min_nat(self.config_spec().training_sample_size as nat, self.contents().len())
            }),
    {
        if !self.is_trained() {
            return Err(IvfError::InvalidConfig { reason: "IvfIndex must be trained before retrain()" });
        }
        if self.is_empty() {
            return Ok(None);
        }
        let order = self.addrs_in_seq_order();
        proof {
            self.lemma_order_len(order@);
        }
        let mut rng = SplitMix64::new(self.config().seed);
        let picks = subsample_indices(order.len(), self.config().training_sample_size, &mut rng);
        let mut w: Vec<(usize, usize)> = Vec::new();
        let mut j: usize = 0;
        while j < picks.len()
            invariant
                j <= picks@.len(),
                forall|q: int| 0 <= q < picks@.len() ==> #[trigger] picks@[q] < order@.len(),
                w@ =~= Seq::new(j as nat, |q: int| order@[picks@[q] as int]),
            decreases picks@.len() - j,
        {
            w.push(order[picks[j]]);
            j = j + 1;
        }
        proof {
            assert(in_seq_order(self.lists_spec(), order@));
            assert(picks_from(order@, w@, self.config_spec().training_sample_size, self.config_spec().seed));
        }
        Ok(Some(w))
    }

    /// An enumeration of every entry in sequence order is as long as the
    /// number of live vectors: distinct addresses hold distinct identifiers,
    /// and every live identifier is stored somewhere.
    proof fn lemma_order_len(&self, order: Seq<(usize, usize)>)
        requires
            self.wf(),
            in_seq_order(self.lists_spec(), order),
        ensures
            order.len() == self.contents().len(),
    {
        self.lemma_wf_lists();
        let lists = self.lists_spec();
        let ids = order.map_values(|a: (usize, usize)| lists[a.0 as int][a.1 as int].id@);
        assert(ids.no_duplicates()) by {
            assert forall|i: int, j: int| 0 <= i < ids.len() && 0 <= j < ids.len() && i != j implies ids[i] != ids[j] by {
                let (a, b) = if i < j { (i, j) } else { (j, i) };
                assert(key_lt(retrain_key(lists, order[a]), retrain_key(lists, order[b])));
                let (c1, p1) = order[i];
                let (c2, p2) = order[j];
                assert(order[i] != order[j]);
                if ids[i] == ids[j] {
                    let e1 = lists[c1 as int][p1 as int];
                    let e2 = lists[c2 as int][p2 as int];
                    assert(self.contents()[e1.id@].0 == c1);
                    assert(self.contents()[e2.id@].0 == c2);
                    if p1 < p2 {
                        assert(lists[c1 as int][p1 as int].id@ != lists[c1 as int][p2 as int].id@);
                    } else {
                        assert(lists[c1 as int][p2 as int].id@ != lists[c1 as int][p1 as int].id@);
                    }
                }
            }
        }
        ids.unique_seq_to_set();
        assert(ids.to_set() =~= self.contents().dom()) by {
            assert forall|k: IdView| ids.to_set().contains(k) <==> self.contents().dom().contains(k) by {
                if ids.to_set().contains(k) {
                    let i = choose|i: int| 0 <= i < ids.len() && ids[i] == k;
                    let (c, p) = order[i];
                    assert(self.has(lists[c as int][p as int].id@));
                }
                if self.contents().dom().contains(k) {
                    assert(self.has(k));
                    let c = self.contents()[k].0 as int;
                    let p = choose|p: int| 0 <= p < lists[c].len() && #[trigger] lists[c][p].id@ == k;
                    assert(lists[c][p].id@ == k);
                    assert(addr_listed(order, c, p));
                    let i = choose|i: int| 0 <= i < order.len() && order[i] == (c as usize, p as usize);
                    assert(ids[i] == k);
                }
            }
        }
    }
}

/// The entries at the given addresses, in order.
pub open spec fn entries_at<V>(lists: Seq<Seq<Entry<V>>>, addrs: Seq<(usize, usize)>) -> Seq<Entry<V>> {
    Seq::new(addrs.len(), |i: int| lists[addrs[i].0 as int][addrs[i].1 as int])
}

/// Every stored entry.
pub open spec fn stored_entries<V>(lists: Seq<Seq<Entry<V>>>) -> Set<Entry<V>> {
    Set::new(|e: Entry<V>| exists|c: int, p: int| 0 <= c < lists.len() && 0 <= p < lists[c].len() && lists[c][p] == e)
}

/// Entries in strictly ascending order of sequence number.
pub open spec fn seq_ascending<V>(es: Seq<Entry<V>>) -> bool {
    forall|i: int, j: int| 0 <= i < j < es.len() ==> (#[trigger] es[i]).seq < (#[trigger] es[j]).seq
}

/// Two sequences of entries, each strictly ascending by sequence number,
/// that hold the same entries are equal.
proof fn lemma_ascending_unique<V>(e1: Seq<Entry<V>>, e2: Seq<Entry<V>>)
    requires
        seq_ascending(e1),
        seq_ascending(e2),
        e1.to_set() == e2.to_set(),
    ensures
        e1 == e2,
{
    assert(e1.no_duplicates()) by {
        assert forall|i: int, j: int| 0 <= i < e1.len() && 0 <= j < e1.len() && i != j implies e1[i] != e1[j] by {
            if i < j { assert(e1[i].seq < e1[j].seq); } else { assert(e1[j].seq < e1[i].seq); }
        }
    }
    assert(e2.no_duplicates()) by {
        assert forall|i: int, j: int| 0 <= i < e2.len() && 0 <= j < e2.len() && i != j implies e2[i] != e2[j] by {
            if i < j { assert(e2[i].seq < e2[j].seq); } else { assert(e2[j].seq < e2[i].seq); }
        }
    }
    e1.unique_seq_to_set();
    e2.unique_seq_to_set();
    assert forall|i: int| 0 <= i < e1.len() implies #[trigger] e1[i] == e2[i] by {
        // e1[i] sits at some position m of e2, and e2[i] at some position m2 of e1.
        assert(e1.to_set().contains(e1[i]));
        let m = choose|m: int| 0 <= m < e2.len() && e2[m] == e1[i];
        lemma_position_le(e1, e2, i, m);
        lemma_position_le(e2, e1, m, i);
    }
    assert(e1 =~= e2);
}

/// In two strictly ascending sequences with the same entries, an entry
/// sits no further along in the first than in the second: every entry
/// before it in the first is before it in the second too.
proof fn lemma_position_le<V>(e1: Seq<Entry<V>>, e2: Seq<Entry<V>>, i: int, m: int)
    requires
        seq_ascending(e1),
        seq_ascending(e2),
        e1.to_set() == e2.to_set(),
        e1.no_duplicates(),
        0 <= i < e1.len(),
        0 <= m < e2.len(),
        e2[m] == e1[i],
    ensures
        i <= m,
{
    if m < i {
        // The entries e1[0..i] are all below e1[i], hence in e2 they sit
        // below m: i distinct positions below m < i, impossible.
        let f = |j: int| choose|x: int| 0 <= x < e2.len() && e2[x] == e1[j];
        assert forall|j: int| 0 <= j < i implies 0 <= #[trigger] f(j) < m && e2[f(j)] == e1[j] by {
            assert(e1.to_set().contains(e1[j]));
            assert(e2.to_set().contains(e1[j]));
            let x = f(j);
            assert(e1[j].seq < e1[i].seq);
            if x >= m {
                if x == m {
                    assert(e1[j] == e1[i]);
                } else {
                    assert(e2[m].seq < e2[x].seq);
                }
            }
        }
        let dom = vstd::set_lib::set_int_range(0, i);
        let img = dom.map(f);
        vstd::set_lib::lemma_int_range(0, i);
        vstd::set_lib::lemma_int_range(0, m);
        assert(vstd::relations::injective_on(f, dom)) by {
            assert forall|x1: int, x2: int| dom.contains(x1) && dom.contains(x2) && #[trigger] f(x1) == #[trigger] f(x2)
                implies x1 == x2 by {
                assert(e1[x1] == e1[x2]);
            }
        }
        vstd::set_lib::lemma_map_size(dom, img, f);
        assert(img.subset_of(vstd::set_lib::set_int_range(0, m)));
        vstd::set_lib::lemma_len_subset(img, vstd::set_lib::set_int_range(0, m));
    }
}

impl<V> IvfIndex<V> {
    /// The entries of an enumeration in sequence order ascend strictly by
    /// sequence number and are exactly the stored entries.
    proof fn lemma_seq_order_entries(&self, order: Seq<(usize, usize)>)
        requires
            self.wf(),
            in_seq_order(self.lists_spec(), order),
        ensures
            seq_ascending(entries_at(self.lists_spec(), order)),
            entries_at(self.lists_spec(), order).to_set() == stored_entries(self.lists_spec()),
    {
        self.lemma_wf_lists();
        let lists = self.lists_spec();
        let es = entries_at(lists, order);
        assert forall|i: int, j: int| 0 <= i < j < es.len() implies (#[trigger] es[i]).seq < (#[trigger] es[j]).seq by {
            assert(key_lt(retrain_key(lists, order[i]), retrain_key(lists, order[j])));
            self.lemma_entries_distinct(order[i].0 as int, order[i].1 as int, order[j].0 as int, order[j].1 as int);
        }
        assert(es.to_set() =~= stored_entries(lists)) by {
            assert forall|e: Entry<V>| es.to_set().contains(e) <==> stored_entries(lists).contains(e) by {
                if es.to_set().contains(e) {
                    let i = choose|i: int| 0 <= i < es.len() && es[i] == e;
                    assert(lists[order[i].0 as int][order[i].1 as int] == e);
                }
                if stored_entries(lists).contains(e) {
                    let (c, p) = choose|c: int, p: int| 0 <= c < lists.len() && 0 <= p < lists[c].len() && lists[c][p] == e;
                    assert(addr_listed(order, c, p));
                    let i = choose|i: int| 0 <= i < order.len() && order[i] == (c as usize, p as usize);
                    assert(es[i] == e);
                }
            }
        }
    }

    /// Retraining's order depends only on which entries are stored, not on
    /// where deletes have moved them: two indexes that store the same
    /// entries list them in the same sequence order.
    pub proof fn lemma_seq_order_layout_independent(a: &Self, b: &Self, oa: Seq<(usize, usize)>, ob: Seq<(usize, usize)>)
        requires
            a.wf(),
            b.wf(),
            stored_entries(a.lists_spec()) == stored_entries(b.lists_spec()),
            in_seq_order(a.lists_spec(), oa),
            in_seq_order(b.lists_spec(), ob),
        ensures
            entries_at(a.lists_spec(), oa) == entries_at(b.lists_spec(), ob),
    {
        a.lemma_seq_order_entries(oa);
        b.lemma_seq_order_entries(ob);
        lemma_ascending_unique(entries_at(a.lists_spec(), oa), entries_at(b.lists_spec(), ob));
    }

    /// Retraining is deterministic in the stored entries: two indexes that
    /// store the same entries, retrained with the same cap and seed, train
    /// on the same entries in the same order.
    pub proof fn lemma_retrain_working_set_layout_independent(
        a: &Self,
        b: &Self,
        wa: Seq<(usize, usize)>,
        wb: Seq<(usize, usize)>,
        cap: usize,
        seed: u64,
    )
        requires
            a.wf(),
            b.wf(),
            stored_entries(a.lists_spec()) == stored_entries(b.lists_spec()),
            retrain_working_set(a.lists_spec(), wa, cap, seed),
            retrain_working_set(b.lists_spec(), wb, cap, seed),
        ensures
            entries_at(a.lists_spec(), wa) == entries_at(b.lists_spec(), wb),
    {
        let oa = choose|oa: Seq<(usize, usize)>| #[trigger] in_seq_order(a.lists_spec(), oa) && picks_from(oa, wa, cap, seed);
        let ob = choose|ob: Seq<(usize, usize)>| #[trigger] in_seq_order(b.lists_spec(), ob) && picks_from(ob, wb, cap, seed);
        Self::lemma_seq_order_layout_independent(a, b, oa, ob);
        a.lemma_wf_lists();
        a.lemma_order_len(oa);
        let ea = entries_at(a.lists_spec(), oa);
        let eb = entries_at(b.lists_spec(), ob);
        assert(oa.len() == ob.len()) by {
            assert(ea.len() == eb.len());
        }
        let picks = subsample_spec(oa.len(), cap as nat, seed);
        assert forall|j: int| 0 <= j < wa.len() implies
            #[trigger] entries_at(a.lists_spec(), wa)[j] == entries_at(b.lists_spec(), wb)[j] by {
            assert(wa[j] == oa[picks[j] as int]);
            assert(wb[j] == ob[picks[j] as int]);
            crate::rng::lemma_subsample_spec_valid(oa.len(), cap as nat, seed);
            assert(ea[picks[j] as int] == eb[picks[j] as int]);
        }
        assert(entries_at(a.lists_spec(), wa) =~= entries_at(b.lists_spec(), wb));
    }
}

} // verus!
