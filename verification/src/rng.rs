//! SplitMix64: the seeded pseudo-random generator behind k-means++
//! seeding and deterministic subsampling.
//!
//! Every draw is a function of the seed and the number of earlier draws,
//! so identical seeds give identical streams on every platform.

use vstd::prelude::*;

verus! {

/// The SplitMix64 state increment (the golden-ratio constant).
pub open spec fn golden_gamma() -> u64 {
    0x9E37_79B9_7F4A_7C15u64
}

/// `x * y` modulo `2^64`.
pub open spec fn mul_mod64(x: u64, y: u64) -> u64 {
    ((x as nat * y as nat) % 0x1_0000_0000_0000_0000nat) as u64
}

/// `x + y` modulo `2^64`.
pub open spec fn add_mod64(x: u64, y: u64) -> u64 {
    ((x as nat + y as nat) % 0x1_0000_0000_0000_0000nat) as u64
}

/// The SplitMix64 output function applied to a state.
#[verifier::opaque]
pub open spec fn splitmix_mix(s: u64) -> u64 {
    let z1 = mul_mod64(s ^ (s >> 30u64), 0xBF58_476D_1CE4_E5B9u64);
    let z2 = mul_mod64(z1 ^ (z1 >> 27u64), 0x94D0_49BB_1331_11EBu64);
    z2 ^ (z2 >> 31u64)
}

/// The state after `n` draws from state `s`.
pub open spec fn advance(s: u64, n: nat) -> u64
    decreases n,
{
    if n == 0 { s } else { add_mod64(advance(s, (n - 1) as nat), golden_gamma()) }
}

/// The rejection threshold of a draw below `n`: outputs at or above it are
/// discarded.
pub open spec fn zone_of(n: u64) -> u64 {
    (u64::MAX - (u64::MAX % n)) as u64
}

/// The number of outputs a draw below `n` consumes from state `s`, counting
/// on from the `i`-th: the first accepted one, or the last of the cycle.
pub open spec fn below_steps_from(s: u64, n: u64, i: nat) -> nat
    decreases u64::MAX - i,
{
    if i >= u64::MAX || splitmix_mix(advance(s, i)) < zone_of(n) {
        i
    } else {
        below_steps_from(s, n, i + 1)
    }
}

/// The number of outputs a draw below `n` consumes from state `s`.
pub open spec fn below_steps(s: u64, n: u64) -> nat {
    below_steps_from(s, n, 1)
}

/// The value of a draw below `n` from state `s`.
pub open spec fn below_value(s: u64, n: u64) -> u64 {
    splitmix_mix(advance(s, below_steps(s, n))) % n
}

/// The state after a draw below `n` from state `s`.
pub open spec fn below_state(s: u64, n: u64) -> u64 {
    advance(s, below_steps(s, n))
}

/// The draw of a unit fraction from state `s`, trying outputs from the
/// `i`-th on: the top 53 bits of the first output whose top 53 bits are not
/// all zero, with the number of outputs consumed; after four zero outputs,
/// the smallest fraction `1` with four outputs consumed.
pub open spec fn unit_bits_from(s: u64, i: nat) -> (u64, nat)
    decreases 5 - i,
{
    if i > 4 {
        (1, 4)
    } else if splitmix_mix(advance(s, i)) >> 11u64 != 0 {
        (splitmix_mix(advance(s, i)) >> 11u64, i)
    } else {
        unit_bits_from(s, i + 1)
    }
}

/// Shifting out the low 11 bits leaves a value below `2^53`.
proof fn lemma_shift_bound(v: u64)
    ensures
        v >> 11u64 < 0x20_0000_0000_0000u64,
{
    assert(v >> 11u64 < 0x20_0000_0000_0000u64) by (bit_vector);
}

/// The SplitMix64 generator.
#[derive(Debug)]
pub struct SplitMix64 {
    state: u64,
}

impl SplitMix64 {
    /// The current state.
    pub closed spec fn state(&self) -> u64 {
        self.state
    }

    /// A generator whose state is the seed.
    pub fn new(seed: u64) -> (r: SplitMix64)
        ensures
            r.state() == seed,
    {
        SplitMix64 { state: seed }
    }

    /// The next 64-bit output: advance the state by the golden gamma and
    /// mix it.
    pub fn next_u64(&mut self) -> (r: u64)
        ensures
            final(self).state() == add_mod64(old(self).state(), golden_gamma()),
            r == splitmix_mix(final(self).state()),
    {
        proof {
            reveal(splitmix_mix);
        }
        self.state = self.state.wrapping_add(0x9E37_79B9_7F4A_7C15u64);
        let z0 = self.state;
        let z1 = (z0 ^ (z0 >> 30u64)).wrapping_mul(0xBF58_476D_1CE4_E5B9u64);
        let z2 = (z1 ^ (z1 >> 27u64)).wrapping_mul(0x94D0_49BB_1331_11EBu64);
        z2 ^ (z2 >> 31u64)
    }

    /// The numerator of a fraction in `(0, 1]` with denominator `2^53`: the
    /// top 53 bits of the next output that has any of them set, trying at
    /// most four outputs and falling back to `1`. The fraction itself is
    /// formed in floating point by the caller.
    pub fn next_unit_bits(&mut self) -> (r: u64)
        ensures
            1 <= r < 0x20_0000_0000_0000u64,
            r == unit_bits_from(old(self).state(), 1).0,
            final(self).state() == advance(old(self).state(), unit_bits_from(old(self).state(), 1).1),
    {
        let ghost s0 = self.state;
        let mut tries: u64 = 0;
        while tries < 4
            invariant
                tries <= 4,
                s0 == old(self).state(),
                self.state == advance(s0, tries as nat),
                unit_bits_from(s0, 1) == unit_bits_from(s0, (tries + 1) as nat),
            decreases 4 - tries,
        {
            let v = self.next_u64();
            tries = tries + 1;
            assert(self.state == advance(s0, tries as nat));
            let bits = v >> 11u64;
            proof {
                lemma_shift_bound(v);
                assert(v == splitmix_mix(advance(s0, tries as nat)));
            }
            if bits != 0 {
                assert(unit_bits_from(s0, tries as nat) == (bits, tries as nat));
                return bits;
            }
            assert(unit_bits_from(s0, tries as nat) == unit_bits_from(s0, (tries + 1) as nat));
        }
        assert(unit_bits_from(s0, 5) == (1u64, 4nat));
        1
    }

    /// A draw uniform over `0..n` by rejection: outputs at or above the
    /// largest multiple of `n` are discarded and the first accepted output
    /// is reduced modulo `n`.
    ///
    /// The generator cycles through all `2^64` states, so an accepted output
    /// always comes within `2^64 - 1` draws; the loop is bounded by that
    /// count.
    pub fn next_below(&mut self, n: u64) -> (r: u64)
        requires
            n >= 1,
        ensures
            r < n,
            r == below_value(old(self).state(), n),
            final(self).state() == below_state(old(self).state(), n),
    {
        let zone = u64::MAX - (u64::MAX % n);
        let ghost s0 = self.state;
        let mut draws: u64 = 0;
        loop
            invariant
                n >= 1,
                s0 == old(self).state(),
                zone == u64::MAX - (u64::MAX % n),
                draws < u64::MAX,
                self.state == advance(s0, draws as nat),
                zone == zone_of(n),
                below_steps(s0, n) == below_steps_from(s0, n, (draws + 1) as nat),
            decreases u64::MAX - draws,
        {
            let v = self.next_u64();
            draws = draws + 1;
            assert(self.state == advance(s0, draws as nat));
            assert(v == splitmix_mix(advance(s0, draws as nat)));
            if v < zone || draws == u64::MAX {
                assert(below_steps_from(s0, n, draws as nat) == draws as nat);
                return v % n;
            }
            assert(below_steps_from(s0, n, draws as nat) == below_steps_from(s0, n, (draws + 1) as nat));
        }
    }
}

/// The positions `0, 1, ..., n - 1`.
pub open spec fn identity_seq(n: nat) -> Seq<usize> {
    Seq::new(n, |i: int| i as usize)
}

/// Rounds `i, i + 1, ..., target - 1` of a partial Fisher-Yates shuffle of
/// `idx` starting from generator state `s`: round `i` draws `d` below
/// `idx.len() - i` and swaps positions `i` and `i + d`. The result is the
/// shuffled sequence and the final state.
pub open spec fn shuffle_rounds(idx: Seq<usize>, s: u64, i: nat, target: nat) -> (Seq<usize>, u64)
    decreases target - i,
{
    if i >= target || i >= idx.len() {
        (idx, s)
    } else {
        let m = (idx.len() - i) as u64;
        let pick = i + below_value(s, m);
        let swapped = idx.update(i as int, idx[pick]).update(pick, idx[i as int]);
        shuffle_rounds(swapped, below_state(s, m), i + 1, target)
    }
}

/// The positions [`subsample_indices`] picks out of `n` when asked for
/// `target` of them with a generator in state `s`.
pub open spec fn subsample_spec(n: nat, target: nat, s: u64) -> Seq<usize> {
    if target >= n {
        identity_seq(n)
    } else {
        shuffle_rounds(identity_seq(n), s, 0, target).0.take(target as int)
    }
}

/// The generator state [`subsample_indices`] leaves behind.
pub open spec fn subsample_state(n: nat, target: nat, s: u64) -> u64 {
    if target >= n {
        s
    } else {
        shuffle_rounds(identity_seq(n), s, 0, target).1
    }
}

/// Shuffle rounds only swap positions: they keep the length, keep every
/// position below the length and keep positions distinct.
proof fn lemma_shuffle_rounds_valid(idx: Seq<usize>, s: u64, i: nat, target: nat)
    requires
        idx.len() <= usize::MAX,
        forall|j: int| 0 <= j < idx.len() ==> #[trigger] idx[j] < idx.len(),
        forall|a: int, b: int| 0 <= a < b < idx.len() ==> #[trigger] idx[a] != #[trigger] idx[b],
    ensures
        shuffle_rounds(idx, s, i, target).0.len() == idx.len(),
        forall|j: int| 0 <= j < idx.len() ==> #[trigger] shuffle_rounds(idx, s, i, target).0[j] < idx.len(),
        forall|a: int, b: int| 0 <= a < b < idx.len()
            ==> #[trigger] shuffle_rounds(idx, s, i, target).0[a] != #[trigger] shuffle_rounds(idx, s, i, target).0[b],
    decreases target - i,
{
    if !(i >= target || i >= idx.len()) {
        let m = (idx.len() - i) as u64;
        let pick = i + below_value(s, m);
        assert(m > 0);
        let x = splitmix_mix(advance(s, below_steps(s, m)));
        assert(x % m < m) by (nonlinear_arith)
            requires
                m > 0,
        ;
        assert(below_value(s, m) < m);
        let swapped = idx.update(i as int, idx[pick]).update(pick, idx[i as int]);
        assert forall|a: int, b: int| 0 <= a < b < swapped.len() implies #[trigger] swapped[a] != #[trigger] swapped[b] by {
            let oa = if a == i { pick } else if a == pick { i as int } else { a };
            let ob = if b == i { pick } else if b == pick { i as int } else { b };
            assert(swapped[a] == idx[oa]);
            assert(swapped[b] == idx[ob]);
            if oa < ob {
                assert(idx[oa] != idx[ob]);
            } else {
                assert(idx[ob] != idx[oa]);
            }
        }
        assert forall|j: int| 0 <= j < swapped.len() implies #[trigger] swapped[j] < swapped.len() by {
            let oj = if j == i { pick } else if j == pick { i as int } else { j };
            assert(swapped[j] == idx[oj]);
        }
        lemma_shuffle_rounds_valid(swapped, below_state(s, m), i + 1, target);
    }
}

/// The subsample holds `min(target, n)` distinct positions below `n`.
pub proof fn lemma_subsample_spec_valid(n: nat, target: nat, s: u64)
    requires
        n <= usize::MAX,
    ensures
        subsample_spec(n, target, s).len() == if target < n { target } else { n },
        forall|j: int| 0 <= j < subsample_spec(n, target, s).len() ==> #[trigger] subsample_spec(n, target, s)[j] < n,
        forall|a: int, b: int| 0 <= a < b < subsample_spec(n, target, s).len()
            ==> #[trigger] subsample_spec(n, target, s)[a] != #[trigger] subsample_spec(n, target, s)[b],
{
    if target < n {
        let id = identity_seq(n);
        lemma_shuffle_rounds_valid(id, s, 0, target);
        let r = shuffle_rounds(id, s, 0, target).0;
        assert forall|j: int| 0 <= j < subsample_spec(n, target, s).len() implies #[trigger] subsample_spec(n, target, s)[j] < n by {
            assert(subsample_spec(n, target, s)[j] == r[j]);
        }
        assert forall|a: int, b: int| 0 <= a < b < subsample_spec(n, target, s).len()
            implies #[trigger] subsample_spec(n, target, s)[a] != #[trigger] subsample_spec(n, target, s)[b] by {
            assert(subsample_spec(n, target, s)[a] == r[a]);
            assert(subsample_spec(n, target, s)[b] == r[b]);
        }
    }
}

/// A draw below `m > 0` is below `m`.
proof fn lemma_below_value_bound(s: u64, m: u64)
    requires
        m > 0,
    ensures
        below_value(s, m) < m,
{
    let x = splitmix_mix(advance(s, below_steps(s, m)));
    assert(x % m < m) by (nonlinear_arith)
        requires
            m > 0,
    ;
}

/// Shuffle rounds from `i` on keep the length and leave every position
/// before `i` alone.
proof fn lemma_shuffle_rounds_keeps_front(idx: Seq<usize>, s: u64, i: nat, target: nat)
    requires
        idx.len() <= usize::MAX,
    ensures
        shuffle_rounds(idx, s, i, target).0.len() == idx.len(),
        forall|j: int| 0 <= j < i && j < idx.len() ==> #[trigger] shuffle_rounds(idx, s, i, target).0[j] == idx[j],
    decreases target - i,
{
    if !(i >= target || i >= idx.len()) {
        let m = (idx.len() - i) as u64;
        lemma_below_value_bound(s, m);
        let pick = i + below_value(s, m);
        let swapped = idx.update(i as int, idx[pick]).update(pick, idx[i as int]);
        lemma_shuffle_rounds_keeps_front(swapped, below_state(s, m), i + 1, target);
        assert forall|j: int| 0 <= j < i && j < idx.len() implies #[trigger] shuffle_rounds(idx, s, i, target).0[j] == idx[j] by {
            assert(shuffle_rounds(swapped, below_state(s, m), i + 1, target).0[j] == swapped[j]);
        }
    }
}

/// Running the rounds up to `t2` is running them up to `t1` and then on
/// from there: no round depends on where the shuffle will stop.
proof fn lemma_shuffle_rounds_split(idx: Seq<usize>, s: u64, i: nat, t1: nat, t2: nat)
    requires
        i <= t1 <= t2,
    ensures
        shuffle_rounds(idx, s, i, t2) == shuffle_rounds(
            shuffle_rounds(idx, s, i, t1).0, shuffle_rounds(idx, s, i, t1).1, t1, t2),
    decreases t1 - i,
{
    if i < t1 && i < idx.len() {
        let m = (idx.len() - i) as u64;
        let pick = i + below_value(s, m);
        let swapped = idx.update(i as int, idx[pick]).update(pick, idx[i as int]);
        lemma_shuffle_rounds_split(swapped, below_state(s, m), i + 1, t1, t2);
    }
}

/// The first position picked is a draw from all `n` positions: the first
/// shuffle round draws below `n`, so every position below `n` can be the
/// first one picked, not only those below the target.
pub proof fn lemma_subsample_first_draw(n: nat, target: nat, s: u64)
    requires
        0 < target < n,
        n <= usize::MAX,
    ensures
        below_value(s, n as u64) < n,
        subsample_spec(n, target, s)[0] == below_value(s, n as u64),
{
    let id = identity_seq(n);
    let m = n as u64;
    lemma_below_value_bound(s, m);
    let pick = below_value(s, m) as int;
    let swapped = id.update(0, id[pick]).update(pick, id[0]);
    assert(swapped[0] == pick);
    lemma_shuffle_rounds_keeps_front(swapped, below_state(s, m), 1, target);
    assert(shuffle_rounds(id, s, 0, target) == shuffle_rounds(swapped, below_state(s, m), 1, target));
    assert(shuffle_rounds(swapped, below_state(s, m), 1, target).0[0] == swapped[0]);
}

/// Asking for more positions only extends the subsample: for targets
/// `t1 <= t2` below `n`, the first `t1` positions picked for `t2` are the
/// positions picked for `t1`.
pub proof fn lemma_subsample_prefix(n: nat, t1: nat, t2: nat, s: u64)
    requires
        t1 <= t2 < n,
        n <= usize::MAX,
    ensures
        subsample_spec(n, t1, s) == subsample_spec(n, t2, s).take(t1 as int),
{
    let id = identity_seq(n);
    let first = shuffle_rounds(id, s, 0, t1);
    lemma_shuffle_rounds_split(id, s, 0, t1, t2);
    lemma_shuffle_rounds_keeps_front(id, s, 0, t1);
    lemma_shuffle_rounds_keeps_front(first.0, first.1, t1, t2);
    let whole = shuffle_rounds(id, s, 0, t2).0;
    assert(whole == shuffle_rounds(first.0, first.1, t1, t2).0);
    assert forall|j: int| 0 <= j < t1 implies #[trigger] whole[j] == first.0[j] by {
        assert(shuffle_rounds(first.0, first.1, t1, t2).0[j] == first.0[j]);
    }
    assert(subsample_spec(n, t1, s) =~= subsample_spec(n, t2, s).take(t1 as int));
}

/// Distinct positions below `n`, `target` of them (or all `n` when
/// `target >= n`), chosen by a partial Fisher-Yates shuffle driven by `rng`.
///
/// When `target >= n` the result is `0, 1, ..., n - 1` in order and `rng`
/// is not advanced; otherwise `rng` is advanced by the `target` draws of the
/// shuffle.
pub fn subsample_indices(n: usize, target: usize, rng: &mut SplitMix64) -> (r: Vec<usize>)
    ensures
        r@.len() == if target < n { target } else { n },
        forall|j: int| 0 <= j < r@.len() ==> #[trigger] r@[j] < n,
        forall|a: int, b: int| 0 <= a < b < r@.len() ==> #[trigger] r@[a] != #[trigger] r@[b],
        r@ == subsample_spec(n as nat, target as nat, old(rng).state()),
        final(rng).state() == subsample_state(n as nat, target as nat, old(rng).state()),
{
    let ghost s0 = rng.state();
    let mut indices: Vec<usize> = Vec::new();
    let mut i: usize = 0;
    while i < n
        invariant
            i <= n,
            indices@.len() == i,
            indices@ =~= identity_seq(i as nat),
        decreases n - i,
    {
        indices.push(i);
        i = i + 1;
    }
    if target >= n {
        return indices;
    }
    let ghost goal = shuffle_rounds(identity_seq(n as nat), s0, 0, target as nat);
    let mut i: usize = 0;
    while i < target
        invariant
            target < n,
            shuffle_rounds(indices@, rng.state(), i as nat, target as nat) == goal,
            i <= target,
            indices@.len() == n,
            forall|j: int| 0 <= j < n ==> #[trigger] indices@[j] < n,
            forall|a: int, b: int| 0 <= a < b < n ==> #[trigger] indices@[a] != #[trigger] indices@[b],
        decreases target - i,
    {
        let remaining = (n - i) as u64;
        let ghost st = rng.state();
        let pick = i + (rng.next_below(remaining) as usize);
        let ghost before = indices@;
        let x = indices[i];
        let y = indices[pick];
        indices.set(i, y);
        indices.set(pick, x);
        proof {
            assert forall|a: int, b: int| 0 <= a < b < n implies #[trigger] indices@[a] != #[trigger] indices@[b] by {
                let oa = if a == i { pick as int } else if a == pick { i as int } else { a };
                let ob = if b == i { pick as int } else if b == pick { i as int } else { b };
                assert(indices@[a] == before[oa]);
                assert(indices@[b] == before[ob]);
                assert(oa != ob);
                if oa < ob {
                    assert(before[oa] != before[ob]);
                } else {
                    assert(before[ob] != before[oa]);
                }
            }
            assert(indices@ =~= before.update(i as int, before[pick as int]).update(pick as int, before[i as int]));
            assert(shuffle_rounds(before, st, i as nat, target as nat)
                == shuffle_rounds(indices@, rng.state(), (i + 1) as nat, target as nat));
            assert forall|j: int| 0 <= j < n implies #[trigger] indices@[j] < n by {
                let oj = if j == i { pick as int } else if j == pick { i as int } else { j };
                assert(indices@[j] == before[oj]);
            }
        }
        i = i + 1;
    }
    assert(shuffle_rounds(indices@, rng.state(), target as nat, target as nat) == (indices@, rng.state()));
    indices.truncate(target);
    assert(indices@ =~= goal.0.take(target as int));
    indices
}

} // verus!
