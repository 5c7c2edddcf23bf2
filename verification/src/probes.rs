//! Probe-count recommendation from cluster occupancy.
//!
//! Sort the cluster sizes from largest to smallest and count how many of the
//! largest clusters are needed before their sizes add up to a target number
//! of vectors.

use vstd::prelude::*;
use vstd::relations::{sorted_by, total_ordering};

verus! {

broadcast use vstd::seq_lib::group_to_multiset_ensures;

/// Non-increasing order on sizes, as a relation.
pub open spec fn desc_order() -> spec_fn(usize, usize) -> bool {
    |a: usize, b: usize| a >= b
}

/// The sizes, largest first.
pub open spec fn sizes_desc(s: Seq<usize>) -> Seq<usize> {
    s.sort_by(desc_order())
}

/// Sum of the first `n` sizes.
pub open spec fn prefix_sum(s: Seq<usize>, n: nat) -> int
    decreases n,
{
    if n == 0 || n > s.len() { 0 } else { prefix_sum(s, (n - 1) as nat) + s[n - 1] }
}

/// The first count `m > n` at which the running sum reaches `target`, or the
/// number of sizes when it never does.
pub open spec fn cover_from(s: Seq<usize>, target: int, n: nat) -> nat
    decreases s.len() - n,
{
    if n >= s.len() {
        s.len()
    } else if prefix_sum(s, n + 1) >= target {
        n + 1
    } else {
        cover_from(s, target, n + 1)
    }
}

/// How many of the leading sizes it takes to reach `target` (all of them if
/// they never do).
pub open spec fn cover_count(s: Seq<usize>, target: int) -> nat {
    cover_from(s, target, 0)
}

/// `>=` is a total order on sizes.
pub proof fn lemma_desc_order_total()
    ensures
        total_ordering(desc_order()),
{
}

/// The count is at least one past the starting point and at most the
/// number of sizes.
pub proof fn lemma_cover_from_bounds(s: Seq<usize>, target: int, n: nat)
    requires
        n < s.len(),
    ensures
        n < cover_from(s, target, n) <= s.len(),
    decreases s.len() - n,
{
    if prefix_sum(s, n + 1) < target {
        if n + 1 < s.len() {
            lemma_cover_from_bounds(s, target, n + 1);
        } else {
            assert(cover_from(s, target, n + 1) == s.len());
        }
    }
}

/// A larger target never needs fewer clusters.
pub proof fn lemma_cover_from_monotone(s: Seq<usize>, t1: int, t2: int, n: nat)
    requires
        t1 <= t2,
    ensures
        cover_from(s, t1, n) <= cover_from(s, t2, n),
    decreases s.len() - n,
{
    if n < s.len() {
        if prefix_sum(s, n + 1) >= t1 {
            if prefix_sum(s, n + 1) < t2 && n + 1 <= s.len() {
                if n + 1 < s.len() {
                    lemma_cover_from_bounds(s, t2, n + 1);
                }
            }
        } else {
            lemma_cover_from_monotone(s, t1, t2, n + 1);
        }
    }
}

/// When the count stops short of all sizes, the leading sizes it counts
/// reach the target.
pub proof fn lemma_cover_from_reaches(s: Seq<usize>, target: int, n: nat)
    requires
        n <= s.len(),
        cover_from(s, target, n) < s.len() || prefix_sum(s, s.len()) >= target,
    ensures
        prefix_sum(s, cover_from(s, target, n)) >= target,
    decreases s.len() - n,
{
    if n < s.len() && prefix_sum(s, n + 1) < target {
        lemma_cover_from_reaches(s, target, n + 1);
    }
}

/// The count stops at the first prefix that reaches the target: started
/// from a prefix that falls short (or from nothing), one size fewer than
/// the count never reaches the target.
pub proof fn lemma_cover_from_minimal(s: Seq<usize>, target: int, n: nat)
    requires
        n < s.len(),
        n == 0 || prefix_sum(s, n) < target,
    ensures
        cover_from(s, target, n) == 1 || prefix_sum(s, (cover_from(s, target, n) - 1) as nat) < target,
    decreases s.len() - n,
{
    if prefix_sum(s, n + 1) < target && n + 1 < s.len() {
        lemma_cover_from_minimal(s, target, n + 1);
    } else if prefix_sum(s, n + 1) < target {
        assert(cover_from(s, target, n + 1) == s.len());
    }
}

/// The sum of every size.
pub open spec fn total(s: Seq<usize>) -> int {
    prefix_sum(s, s.len())
}

/// Prefix sums are never negative.
pub proof fn lemma_prefix_sum_nonneg(s: Seq<usize>, n: nat)
    ensures
        prefix_sum(s, n) >= 0,
    decreases n,
{
    if n > 0 {
        lemma_prefix_sum_nonneg(s, (n - 1) as nat);
    }
}

/// Prefix sums look only at the sizes they add up.
proof fn lemma_prefix_sum_agree(s: Seq<usize>, t: Seq<usize>, n: nat)
    requires
        n <= s.len(),
        n <= t.len(),
        forall|i: int| 0 <= i < n ==> s[i] == t[i],
    ensures
        prefix_sum(s, n) == prefix_sum(t, n),
    decreases n,
{
    if n > 0 {
        lemma_prefix_sum_agree(s, t, (n - 1) as nat);
    }
}

/// Appending a size adds it to the total.
proof fn lemma_total_push(s: Seq<usize>, x: usize)
    ensures
        total(s.push(x)) == total(s) + x,
{
    lemma_prefix_sum_agree(s, s.push(x), s.len());
}

/// Removing the size at `i` takes it off the total.
proof fn lemma_total_remove(s: Seq<usize>, i: int)
    requires
        0 <= i < s.len(),
    ensures
        total(s) == total(s.remove(i)) + s[i],
    decreases s.len(),
{
    let last = s.len() - 1;
    let init = s.drop_last();
    assert(s =~= init.push(s[last]));
    lemma_total_push(init, s[last]);
    if i == last {
        assert(s.remove(i) =~= init);
    } else {
        lemma_total_remove(init, i);
        assert(s.remove(i) =~= init.remove(i).push(s[last]));
        lemma_total_push(init.remove(i), s[last]);
    }
}

/// Rearranging the sizes keeps their total.
pub proof fn lemma_total_permutation(s: Seq<usize>, t: Seq<usize>)
    requires
        s.to_multiset() == t.to_multiset(),
    ensures
        total(s) == total(t),
    decreases s.len(),
{
    if s.len() == 0 {
        assert(t.to_multiset().len() == 0);
    } else {
        let last = s.len() - 1;
        let x = s[last];
        assert(s.to_multiset().count(x) > 0) by {
            assert(s.contains(x));
        }
        assert(t.contains(x));
        let i = choose|i: int| 0 <= i < t.len() && t[i] == x;
        assert(s.remove(last).to_multiset() == t.remove(i).to_multiset());
        lemma_total_permutation(s.remove(last), t.remove(i));
        lemma_total_remove(s, last);
        lemma_total_remove(t, i);
    }
}

/// The sizes sorted largest first.
pub fn sort_sizes_desc(sizes: &Vec<usize>) -> (r: Vec<usize>)
    ensures
        r@ == sizes_desc(sizes@),
{
    let mut out: Vec<usize> = Vec::new();
    let mut i: usize = 0;
    while i < sizes.len()
        invariant
            i <= sizes@.len(),
            sorted_by(out@, desc_order()),
            out@.to_multiset() == sizes@.subrange(0, i as int).to_multiset(),
        decreases sizes@.len() - i,
    {
        let x = sizes[i];
        let mut p: usize = 0;
        while p < out.len() && out[p] >= x
            invariant
                p <= out@.len(),
                i < sizes@.len(),
                x == sizes@[i as int],
                sorted_by(out@, desc_order()),
                out@.to_multiset() == sizes@.subrange(0, i as int).to_multiset(),
                forall|q: int| 0 <= q < p ==> #[trigger] out@[q] >= x,
            decreases out@.len() - p,
        {
            p = p + 1;
        }
        let ghost before = out@;
        out.insert(p, x);
        proof {
            assert forall|a: int, b: int| 0 <= a < b < out@.len() implies
                #[trigger] desc_order()(out@[a], out@[b]) by {
                let oa = if a < p { a } else if a == p { -1 } else { a - 1 };
                let ob = if b < p { b } else if b == p { -1 } else { b - 1 };
                if a == p {
                    assert(before[ob] <= x) by {
                        if p < before.len() {
                            assert(before[p as int] < x);
                            if ob > p {
                                assert(desc_order()(before[p as int], before[ob]));
                            }
                        }
                    }
                } else if b == p {
                    assert(before[oa] >= x);
                } else {
                    assert(desc_order()(before[oa], before[ob]));
                }
            }
            assert(sizes@.subrange(0, i + 1) =~= sizes@.subrange(0, i as int).push(x));
        }
        i = i + 1;
    }
    proof {
        assert(sizes@.subrange(0, sizes@.len() as int) =~= sizes@);
        lemma_desc_order_total();
        sizes@.lemma_sort_by_ensures(desc_order());
        vstd::seq_lib::lemma_sorted_unique(out@, sizes_desc(sizes@), desc_order());
    }
    out
}

/// How many of the leading (largest-first) sizes it takes for their sum to
/// reach `target`; all of them when it never does.
pub fn count_to_cover(desc: &Vec<usize>, target: usize) -> (r: usize)
    ensures
        r == cover_count(desc@, target as int),
{
    let mut cumsum: usize = 0;
    let mut i: usize = 0;
    while i < desc.len()
        invariant
            i <= desc@.len(),
            cumsum as int == if prefix_sum(desc@, i as nat) < usize::MAX { prefix_sum(desc@, i as nat) } else { usize::MAX as int },
            prefix_sum(desc@, i as nat) >= 0,
            cover_count(desc@, target as int) == cover_from(desc@, target as int, i as nat),
        decreases desc@.len() - i,
    {
        cumsum = cumsum.saturating_add(desc[i]);
        proof {
            assert(prefix_sum(desc@, (i + 1) as nat) == prefix_sum(desc@, i as nat) + desc@[i as int]);
        }
        if cumsum >= target {
            return i + 1;
        }
        i = i + 1;
    }
    desc.len()
}

} // verus!
