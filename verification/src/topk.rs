//! Top-`k` selection over scored candidates.
//!
//! A candidate is a distance (an `f32` bit pattern) paired with its
//! insertion-sequence number. Candidates are ordered by the total order of
//! their distance first and by sequence number second, so that among equal
//! distances the candidate inserted first (lower `seq`) is the better one.

use vstd::prelude::*;
use crate::float_bits::{total_key, total_order_key};

verus! {

/// Strict "better than" on `(distance, seq)` pairs: smaller distance in the
/// total order of `f32`, then smaller sequence number.
pub open spec fn pair_before(da: u32, sa: u64, db: u32, sb: u64) -> bool {
    total_key(da) < total_key(db) || (total_key(da) == total_key(db) && sa < sb)
}

/// Candidate `i` is strictly better than candidate `j`.
pub open spec fn cand_before(dists: Seq<u32>, seqs: Seq<u64>, i: int, j: int) -> bool {
    pair_before(dists[i], seqs[i], dists[j], seqs[j])
}

/// `min(a, b)` on naturals.
pub open spec fn min_nat(a: nat, b: nat) -> nat {
    if a <= b { a } else { b }
}

/// `r` lists distinct positions of `dists`, best first.
pub open spec fn is_ranked_subset(dists: Seq<u32>, seqs: Seq<u64>, r: Seq<usize>) -> bool {
    &&& forall|j: int| 0 <= j < r.len() ==> #[trigger] r[j] < dists.len()
    &&& forall|j1: int, j2: int|
        0 <= j1 < j2 < r.len() ==> #[trigger] r[j1] != #[trigger] r[j2]
    &&& forall|j1: int, j2: int|
        0 <= j1 < j2 < r.len() ==> !cand_before(dists, seqs, #[trigger] r[j2] as int, #[trigger] r[j1] as int)
}

/// `r` is a best-first selection of the `k` best candidates: it has
/// `min(k, n)` distinct positions in non-decreasing `(distance, seq)` order,
/// and no candidate left out is strictly better than one that was chosen.
pub open spec fn is_topk(dists: Seq<u32>, seqs: Seq<u64>, k: nat, r: Seq<usize>) -> bool {
    &&& r.len() == min_nat(k, dists.len())
    &&& is_ranked_subset(dists, seqs, r)
    &&& forall|i: int, j: int|
        #![trigger dists[i], r[j]]
        0 <= i < dists.len() && !r.contains(i as usize) && 0 <= j < r.len()
            ==> !cand_before(dists, seqs, i, r[j] as int)
}

/// Whether candidate `i` is strictly better than candidate `j`.
fn before(dists: &[u32], seqs: &[u64], i: usize, j: usize) -> (r: bool)
    requires
        i < dists@.len(),
        j < dists@.len(),
        dists@.len() == seqs@.len(),
    ensures
        r == cand_before(dists@, seqs@, i as int, j as int),
{
    let ki = total_order_key(dists[i]);
    let kj = total_order_key(dists[j]);
    ki < kj || (ki == kj && seqs[i] < seqs[j])
}

/// The first position of `buf` whose candidate is strictly worse than
/// candidate `i`, or `buf.len()` when there is none.
fn insertion_point(dists: &[u32], seqs: &[u64], buf: &Vec<usize>, i: usize) -> (p: usize)
    requires
        i < dists@.len(),
        dists@.len() == seqs@.len(),
        forall|j: int| 0 <= j < buf@.len() ==> #[trigger] buf@[j] < dists@.len(),
    ensures
        p <= buf@.len(),
        forall|q: int| 0 <= q < p ==> !cand_before(dists@, seqs@, i as int, #[trigger] buf@[q] as int),
        p < buf@.len() ==> cand_before(dists@, seqs@, i as int, buf@[p as int] as int),
{
    let mut p: usize = 0;
    while p < buf.len()
        invariant
            p <= buf@.len(),
            i < dists@.len(),
            dists@.len() == seqs@.len(),
            forall|j: int| 0 <= j < buf@.len() ==> #[trigger] buf@[j] < dists@.len(),
            forall|q: int| 0 <= q < p ==> !cand_before(dists@, seqs@, i as int, #[trigger] buf@[q] as int),
        decreases buf@.len() - p,
    {
        if before(dists, seqs, i, buf[p]) {
            return p;
        }
        p = p + 1;
    }
    p
}

/// Inserting a candidate at its insertion point keeps a ranked subset
/// ranked.
proof fn lemma_insert_keeps_ranked(dists: Seq<u32>, seqs: Seq<u64>, old: Seq<usize>, p: int, i: usize)
    requires
        dists.len() == seqs.len(),
        is_ranked_subset(dists, seqs, old),
        i < dists.len(),
        !old.contains(i),
        0 <= p <= old.len(),
        forall|q: int| 0 <= q < p ==> !cand_before(dists, seqs, i as int, #[trigger] old[q] as int),
        p < old.len() ==> cand_before(dists, seqs, i as int, old[p] as int),
    ensures
        is_ranked_subset(dists, seqs, old.insert(p, i)),
{
    let new = old.insert(p, i);
    assert forall|j: int| 0 <= j < new.len() implies #[trigger] new[j] < dists.len() by {
        if j < p {
            assert(new[j] == old[j]);
        } else if j > p {
            assert(new[j] == old[j - 1]);
        }
    }
    assert forall|j1: int, j2: int| 0 <= j1 < j2 < new.len() implies #[trigger] new[j1] != #[trigger] new[j2] by {
        if j1 != p && j2 != p {
            let o1 = if j1 < p { j1 } else { j1 - 1 };
            let o2 = if j2 < p { j2 } else { j2 - 1 };
            assert(new[j1] == old[o1]);
            assert(new[j2] == old[o2]);
        } else if j1 == p {
            assert(new[j2] == old[j2 - 1]);
            assert(old.contains(old[j2 - 1]));
        } else {
            assert(new[j1] == old[j1]);
            assert(old.contains(old[j1]));
        }
    }
    assert forall|j1: int, j2: int| 0 <= j1 < j2 < new.len() implies
        !cand_before(dists, seqs, #[trigger] new[j2] as int, #[trigger] new[j1] as int) by {
        if j1 != p && j2 != p {
            let o1 = if j1 < p { j1 } else { j1 - 1 };
            let o2 = if j2 < p { j2 } else { j2 - 1 };
            assert(new[j1] == old[o1]);
            assert(new[j2] == old[o2]);
            assert(old[o1] != old[o2]);
        } else if j1 == p {
            assert(new[j2] == old[j2 - 1]);
            if j2 - 1 > p {
                assert(!cand_before(dists, seqs, old[j2 - 1] as int, old[p] as int));
            }
        } else {
            assert(new[j1] == old[j1]);
        }
    }
}

/// Select the `k` best candidates and return their positions, best first.
///
/// `dists[i]` is the bit pattern of candidate `i`'s distance and `seqs[i]`
/// its insertion-sequence number. Distances are compared in the total order
/// of `f32` (NaN included), ties on distance go to the lower sequence
/// number. Returns an empty vector when `k == 0` or there are no candidates,
/// and every position, best first, when `k` exceeds the candidate count.
pub fn select_topk_indices(dists: &[u32], seqs: &[u64], k: usize) -> (r: Vec<usize>)
    requires
        dists@.len() == seqs@.len(),
    ensures
        is_topk(dists@, seqs@, k as nat, r@),
{
    let n = dists.len();
    let mut buf: Vec<usize> = Vec::new();
    if k == 0 || n == 0 {
        return buf;
    }
    let cap = if k < n { k } else { n };
    let mut i: usize = 0;
    while i < n
        invariant
            n == dists@.len(),
            dists@.len() == seqs@.len(),
            cap == min_nat(k as nat, n as nat),
            0 < cap,
            i <= n,
            buf@.len() == min_nat(cap as nat, i as nat),
            forall|j: int| 0 <= j < buf@.len() ==> #[trigger] buf@[j] < i,
            is_ranked_subset(dists@, seqs@, buf@),
            buf@.len() < cap ==> forall|a: usize| a < i ==> #[trigger] buf@.contains(a),
            forall|a: int, j: int|
                #![trigger dists@[a], buf@[j]]
                0 <= a < i && !buf@.contains(a as usize) && 0 <= j < buf@.len()
                    ==> !cand_before(dists@, seqs@, a, buf@[j] as int),
        decreases n - i,
    {
        let ghost old_buf = buf@;
        assert(!old_buf.contains(i)) by {
            if old_buf.contains(i) {
                let w = choose|w: int| 0 <= w < old_buf.len() && old_buf[w] == i;
                assert(old_buf[w] < i);
            }
        }
        if buf.len() < cap {
            let p = insertion_point(dists, seqs, &buf, i);
            buf.insert(p, i);
            proof {
                lemma_insert_keeps_ranked(dists@, seqs@, old_buf, p as int, i);
                assert forall|a: usize| a < i + 1 implies #[trigger] buf@.contains(a) by {
                    if a == i {
                        assert(buf@[p as int] == i);
                    } else {
                        assert(old_buf.contains(a));
                        let w = choose|w: int| 0 <= w < old_buf.len() && old_buf[w] == a;
                        if w < p {
                            assert(buf@[w] == a);
                        } else {
                            assert(buf@[w + 1] == a);
                        }
                    }
                }
                assert forall|j: int| 0 <= j < buf@.len() implies #[trigger] buf@[j] < i + 1 by {
                    if j < p {
                        assert(buf@[j] == old_buf[j]);
                    } else if j > p {
                        assert(buf@[j] == old_buf[j - 1]);
                    }
                }
            }
        } else {
            let last = buf[buf.len() - 1];
            if before(dists, seqs, i, last) {
                let _evicted = buf.pop();
                let ghost kept = buf@;
                assert(kept =~= old_buf.subrange(0, old_buf.len() - 1));
                assert(is_ranked_subset(dists@, seqs@, kept)) by {
                    assert forall|j: int| 0 <= j < kept.len() implies #[trigger] kept[j] < dists@.len() by {
                        assert(kept[j] == old_buf[j]);
                    }
                    assert forall|j1: int, j2: int| 0 <= j1 < j2 < kept.len() implies #[trigger] kept[j1] != #[trigger] kept[j2] by {
                        assert(kept[j1] == old_buf[j1]);
                        assert(kept[j2] == old_buf[j2]);
                    }
                    assert forall|j1: int, j2: int| 0 <= j1 < j2 < kept.len() implies
                        !cand_before(dists@, seqs@, #[trigger] kept[j2] as int, #[trigger] kept[j1] as int) by {
                        assert(kept[j1] == old_buf[j1]);
                        assert(kept[j2] == old_buf[j2]);
                    }
                }
                assert(!kept.contains(i)) by {
                    if kept.contains(i) {
                        let w = choose|w: int| 0 <= w < kept.len() && kept[w] == i;
                        assert(old_buf[w] == i);
                    }
                }
                let p = insertion_point(dists, seqs, &buf, i);
                buf.insert(p, i);
                proof {
                    lemma_insert_keeps_ranked(dists@, seqs@, kept, p as int, i);
                    assert forall|j: int| 0 <= j < buf@.len() implies #[trigger] buf@[j] < i + 1 by {
                        if j < p {
                            assert(buf@[j] == kept[j]);
                        } else if j > p {
                            assert(buf@[j] == kept[j - 1]);
                        }
                    }
                    let lpos = old_buf.len() - 1;
                    assert(old_buf[lpos] == last);
                    assert forall|a: int, j: int|
                        #![trigger dists@[a], buf@[j]]
                        0 <= a < i + 1 && !buf@.contains(a as usize) && 0 <= j < buf@.len()
                            implies !cand_before(dists@, seqs@, a, buf@[j] as int) by {
                        if a == i {
                            assert(buf@[p as int] == i);
                        }
                        assert(a < i);
                        if j == p {
                            assert(buf@[j] == i);
                            if a == last as int {
                            } else {
                                // `a` was excluded before and is no better than `last`.
                                assert(!old_buf.contains(a as usize)) by {
                                    if old_buf.contains(a as usize) {
                                        let w = choose|w: int| 0 <= w < old_buf.len() && old_buf[w] == a as usize;
                                        if w < lpos {
                                            assert(kept[w] == a as usize);
                                            if w < p {
                                                assert(buf@[w] == a as usize);
                                            } else {
                                                assert(buf@[w + 1] == a as usize);
                                            }
                                        }
                                    }
                                }
                                assert(!cand_before(dists@, seqs@, a, old_buf[lpos] as int));
                            }
                        } else {
                            let o = if j < p { j } else { j - 1 };
                            assert(buf@[j] == kept[o]);
                            assert(kept[o] == old_buf[o]);
                            if a == last as int {
                                assert(!cand_before(dists@, seqs@, old_buf[lpos] as int, old_buf[o] as int));
                            } else {
                                assert(!old_buf.contains(a as usize)) by {
                                    if old_buf.contains(a as usize) {
                                        let w = choose|w: int| 0 <= w < old_buf.len() && old_buf[w] == a as usize;
                                        if w < lpos {
                                            assert(kept[w] == a as usize);
                                            if w < p {
                                                assert(buf@[w] == a as usize);
                                            } else {
                                                assert(buf@[w + 1] == a as usize);
                                            }
                                        }
                                    }
                                }
                            }
                        }
                    }
                }
            } else {
                proof {
                    let lpos = old_buf.len() - 1;
                    assert(old_buf[lpos] == last);
                    assert forall|a: int, j: int|
                        #![trigger dists@[a], buf@[j]]
                        0 <= a < i + 1 && !buf@.contains(a as usize) && 0 <= j < buf@.len()
                            implies !cand_before(dists@, seqs@, a, buf@[j] as int) by {
                        if a == i {
                            if j < lpos {
                                assert(!cand_before(dists@, seqs@, old_buf[lpos] as int, old_buf[j] as int));
                            }
                        }
                    }
                }
            }
        }
        i = i + 1;
    }
    proof {
        assert forall|i: int, j: int|
            #![trigger dists@[i], buf@[j]]
            0 <= i < dists@.len() && !buf@.contains(i as usize) && 0 <= j < buf@.len()
                implies !cand_before(dists@, seqs@, i, buf@[j] as int) by {
        }
    }
    buf
}

/// Two best-first selections agree up to position `j` when no two
/// candidates share a sequence number.
proof fn lemma_topk_agree_upto(dists: Seq<u32>, seqs: Seq<u64>, k: nat, r1: Seq<usize>, r2: Seq<usize>, j: int)
    requires
        dists.len() == seqs.len(),
        seqs.no_duplicates(),
        is_topk(dists, seqs, k, r1),
        is_topk(dists, seqs, k, r2),
        0 <= j < r1.len(),
    ensures
        forall|m: int| 0 <= m <= j ==> #[trigger] r1[m] == r2[m],
    decreases j,
{
    if j > 0 {
        lemma_topk_agree_upto(dists, seqs, k, r1, r2, j - 1);
    }
    let a = r1[j];
    let b = r2[j];
    if a != b {
        assert(seqs[a as int] != seqs[b as int]);
        if cand_before(dists, seqs, a as int, b as int) {
            lemma_chosen_first(dists, seqs, k, r1, r2, j);
        } else {
            assert(cand_before(dists, seqs, b as int, a as int));
            lemma_chosen_first(dists, seqs, k, r2, r1, j);
        }
    }
}

/// Of two best-first top-`k` selections that agree before position `j`,
/// the candidate at position `j` of the first does not beat the one at
/// position `j` of the second.
proof fn lemma_chosen_first(dists: Seq<u32>, seqs: Seq<u64>, k: nat, r1: Seq<usize>, r2: Seq<usize>, j: int)
    requires
        dists.len() == seqs.len(),
        is_topk(dists, seqs, k, r1),
        is_topk(dists, seqs, k, r2),
        0 <= j < r1.len(),
        forall|m: int| 0 <= m < j ==> #[trigger] r1[m] == r2[m],
    ensures
        !cand_before(dists, seqs, r1[j] as int, r2[j] as int),
{
    let a = r1[j];
    if !cand_before(dists, seqs, r1[j] as int, r2[j] as int) {
    } else if r2.contains(a) {
        let m = choose|m: int| 0 <= m < r2.len() && r2[m] == a;
        if m < j {
            assert(r1[m] == a);
            assert(r1[m] != r1[j]);
        } else if m > j {
            assert(!cand_before(dists, seqs, r2[m] as int, r2[j] as int));
        }
    } else {
        assert(dists[a as int] == dists[a as int]);
        assert(r2[j] == r2[j]);
        assert(!cand_before(dists, seqs, a as int, r2[j] as int));
    }
}

/// When no two candidates share a sequence number, the best-first top-`k`
/// selection is unique: it depends only on the candidates, not on how the
/// selection was computed.
pub proof fn lemma_topk_unique(dists: Seq<u32>, seqs: Seq<u64>, k: nat, r1: Seq<usize>, r2: Seq<usize>)
    requires
        dists.len() == seqs.len(),
        seqs.no_duplicates(),
        is_topk(dists, seqs, k, r1),
        is_topk(dists, seqs, k, r2),
    ensures
        r1 == r2,
{
    if r1.len() > 0 {
        lemma_topk_agree_upto(dists, seqs, k, r1, r2, r1.len() - 1);
    }
    assert(r1 =~= r2);
}

/// When `k` is at least the number of candidates, the best-first selection
/// keeps every candidate.
pub proof fn lemma_topk_keeps_all(dists: Seq<u32>, seqs: Seq<u64>, k: nat, r: Seq<usize>, i: int)
    requires
        is_topk(dists, seqs, k, r),
        k >= dists.len(),
        0 <= i < dists.len(),
    ensures
        r.contains(i as usize),
{
    let n = dists.len() as int;
    if !r.contains(i as usize) {
        let ri = r.map_values(|x: usize| x as int);
        assert(ri.no_duplicates()) by {
            assert forall|a: int, b: int| 0 <= a < ri.len() && 0 <= b < ri.len() && a != b implies ri[a] != ri[b] by {
                if a < b {
                    assert(r[a] != r[b]);
                } else {
                    assert(r[b] != r[a]);
                }
            }
        }
        ri.unique_seq_to_set();
        let range = vstd::set_lib::set_int_range(0, n).remove(i);
        vstd::set_lib::lemma_int_range(0, n);
        assert(ri.to_set().subset_of(range)) by {
            assert forall|x: int| ri.to_set().contains(x) implies range.contains(x) by {
                let j = choose|j: int| 0 <= j < ri.len() && ri[j] == x;
                assert(r[j] < dists.len());
                if x == i {
                    assert(r[j] == i as usize);
                    assert(r.contains(i as usize));
                }
            }
        }
        vstd::set_lib::lemma_len_subset(ri.to_set(), range);
        assert(false);
    }
}

/// A best-first selection lists its candidates in non-decreasing distance
/// order (in the total order of `f32`).
pub proof fn lemma_topk_sorted(dists: Seq<u32>, seqs: Seq<u64>, k: nat, r: Seq<usize>, j1: int, j2: int)
    requires
        is_topk(dists, seqs, k, r),
        0 <= j1 < j2 < r.len(),
    ensures
        total_key(dists[r[j1] as int]) <= total_key(dists[r[j2] as int]),
{
    assert(!cand_before(dists, seqs, r[j2] as int, r[j1] as int));
}

} // verus!
