//! The per-tick permutations and samples the world draws from its streams:
//! the shuffled eating order (no lineage keeps a standing index advantage)
//! and the fixed-size sample of organisms the diversity metric compares,
//! drawn from a throwaway stream keyed to `(seed, tick)` so that how often
//! anyone looks can never change what happens.

use crate::rng::{xoshiro_output, xoshiro_step, wrap_add, wrap_mul, Rng, SPLITMIX_GAMMA};
use vstd::prelude::*;
use vstd::set_lib::{lemma_int_range, lemma_subset_equality, set_int_range};

verus! {

/// The sequence `0, 1, ..., n - 1`.
pub open spec fn identity(n: nat) -> Seq<u32> {
    Seq::new(n, |i: int| i as u32)
}

/// `s` with the entries at `i` and `j` exchanged.
pub open spec fn swap_entries(s: Seq<u32>, i: int, j: int) -> Seq<u32> {
    s.update(i, s[j]).update(j, s[i])
}

/// `s` holds each of `0..n` exactly once.
pub open spec fn is_permutation(s: Seq<u32>, n: nat) -> bool {
    &&& s.len() == n
    &&& s.no_duplicates()
    &&& forall|i: int| 0 <= i < s.len() ==> (#[trigger] s[i] as int) < n
}

/// The backward Fisher–Yates pass over positions `k, k - 1, ..., 1` of
/// `order`, drawing from state `st`: at position `k` the entry is
/// exchanged with the one at `draw % (k + 1)`. Returns the final order and
/// the state after the draws.
pub open spec fn shuffle_down(st: (u64, u64, u64, u64), order: Seq<u32>, k: nat) -> (
    Seq<u32>,
    (u64, u64, u64, u64),
)
    decreases k,
{
    if k == 0 {
        (order, st)
    } else {
        let j = xoshiro_output(st) as int % (k + 1) as int;
        shuffle_down(xoshiro_step(st), swap_entries(order, k as int, j), (k - 1) as nat)
    }
}

/// The eating order of a tick with `n` organisms: the identity shuffled by
/// a backward Fisher–Yates pass (no draws when `n < 2`).
pub open spec fn eating_order(st: (u64, u64, u64, u64), n: nat) -> (Seq<u32>, (u64, u64, u64, u64)) {
    if n == 0 {
        (identity(0), st)
    } else {
        shuffle_down(st, identity(n), (n - 1) as nat)
    }
}

/// The forward partial Fisher–Yates pass over positions `t, t + 1, ...,
/// k - 1` of `order` (of length `n`): position `t` is exchanged with
/// `t + draw % (n - t)`.
pub open spec fn sample_up(st: (u64, u64, u64, u64), order: Seq<u32>, t: nat, k: nat, n: nat) -> (
    Seq<u32>,
    (u64, u64, u64, u64),
)
    decreases k - t,
{
    if t >= k || t >= n {
        (order, st)
    } else {
        let j = t + xoshiro_output(st) as int % (n - t) as int;
        sample_up(xoshiro_step(st), swap_entries(order, t as int, j), (t + 1) as nat, k, n)
    }
}

/// The sample of `k <= n` distinct indices of `0..n`: the first `k`
/// entries of the identity after a forward partial Fisher–Yates pass.
pub open spec fn sample_of(st: (u64, u64, u64, u64), n: nat, k: nat) -> (Seq<u32>, (u64, u64, u64, u64)) {
    let r = sample_up(st, identity(n), 0, k, n);
    (r.0.take(k as int), r.1)
}

/// The seed of the throwaway metrics stream for tick `tick` of the world
/// seeded with `seed`.
pub open spec fn metrics_seed(seed: u64, tick: u64) -> u64 {
    wrap_add(wrap_mul(seed, SPLITMIX_GAMMA), tick)
}

/// Exchanging two entries keeps a sequence of distinct values below `n`
/// distinct and below `n`.
proof fn lemma_swap_keeps_distinct(s: Seq<u32>, i: int, j: int, n: nat)
    requires
        0 <= i < s.len(),
        0 <= j < s.len(),
        s.no_duplicates(),
        forall|x: int| 0 <= x < s.len() ==> (#[trigger] s[x] as int) < n,
    ensures
        swap_entries(s, i, j).len() == s.len(),
        swap_entries(s, i, j).no_duplicates(),
        forall|x: int|
            0 <= x < s.len() ==> (#[trigger] swap_entries(s, i, j)[x] as int) < n,
{
    let t = swap_entries(s, i, j);
    assert forall|a: int, b: int| 0 <= a < t.len() && 0 <= b < t.len() && a != b implies t[a]
        != t[b] by {
        let sa = if a == j {
            i
        } else if a == i {
            j
        } else {
            a
        };
        let sb = if b == j {
            i
        } else if b == i {
            j
        } else {
            b
        };
        assert(t[a] == s[sa] && t[b] == s[sb]);
    }
    assert forall|x: int| 0 <= x < s.len() implies (#[trigger] t[x] as int) < n by {
        if x == j {
            assert(t[x] == s[i]);
        } else if x == i {
            assert(t[x] == s[j]);
        }
    }
}

/// The identity is a permutation.
proof fn lemma_identity_is_permutation(n: nat)
    requires
        n <= u32::MAX as nat + 1,
    ensures
        is_permutation(identity(n), n),
{
}

/// A sequence of `n` distinct values below `n` holds every value below `n`.
pub proof fn lemma_permutation_covers(s: Seq<u32>, n: nat)
    requires
        is_permutation(s, n),
    ensures
        forall|v: u32| (v as int) < n ==> #[trigger] s.contains(v),
{
    let ints = s.map_values(|x: u32| x as int);
    assert(ints.no_duplicates()) by {
        assert forall|a: int, b: int| 0 <= a < ints.len() && 0 <= b < ints.len() && a != b implies ints[a]
            != ints[b] by {
            assert(s[a] != s[b]);
        }
    }
    ints.unique_seq_to_set();
    lemma_int_range(0, n as int);
    assert(ints.to_set().subset_of(set_int_range(0, n as int)));
    lemma_subset_equality(ints.to_set(), set_int_range(0, n as int));
    assert forall|v: u32| (v as int) < n implies #[trigger] s.contains(v) by {
        assert(set_int_range(0, n as int).contains(v as int));
        assert(ints.to_set().contains(v as int));
        let i = choose|i: int| 0 <= i < ints.len() && ints[i] == v as int;
        assert(s[i] == v);
    }
}

/// The backward pass keeps a permutation a permutation.
proof fn lemma_shuffle_down_permutes(st: (u64, u64, u64, u64), order: Seq<u32>, k: nat, n: nat)
    requires
        is_permutation(order, n),
        k < n,
    ensures
        is_permutation(shuffle_down(st, order, k).0, n),
    decreases k,
{
    if k > 0 {
        let j = xoshiro_output(st) as int % (k + 1) as int;
        lemma_swap_keeps_distinct(order, k as int, j, n);
        lemma_shuffle_down_permutes(xoshiro_step(st), swap_entries(order, k as int, j), (k - 1) as nat, n);
    }
}

/// The forward pass keeps a permutation a permutation.
proof fn lemma_sample_up_permutes(st: (u64, u64, u64, u64), order: Seq<u32>, t: nat, k: nat, n: nat)
    requires
        is_permutation(order, n),
    ensures
        is_permutation(sample_up(st, order, t, k, n).0, n),
    decreases k - t,
{
    if t < k && t < n {
        let j = t + xoshiro_output(st) as int % (n - t) as int;
        lemma_swap_keeps_distinct(order, t as int, j, n);
        lemma_sample_up_permutes(xoshiro_step(st), swap_entries(order, t as int, j), (t + 1) as nat, k, n);
    }
}

/// The eating order is a permutation of the organisms: every organism gets
/// exactly one turn.
pub proof fn lemma_eating_order_is_permutation(st: (u64, u64, u64, u64), n: nat)
    requires
        n <= u32::MAX as nat + 1,
    ensures
        is_permutation(eating_order(st, n).0, n),
        forall|v: u32| (v as int) < n ==> #[trigger] eating_order(st, n).0.contains(v),
{
    lemma_identity_is_permutation(n);
    if n > 0 {
        lemma_shuffle_down_permutes(st, identity(n), (n - 1) as nat, n);
    }
    lemma_permutation_covers(eating_order(st, n).0, n);
}

/// The diversity sample is `k` distinct organisms.
pub proof fn lemma_sample_is_distinct(st: (u64, u64, u64, u64), n: nat, k: nat)
    requires
        k <= n,
        n <= u32::MAX as nat + 1,
    ensures
        sample_of(st, n, k).0.len() == k,
        sample_of(st, n, k).0.no_duplicates(),
        forall|i: int| 0 <= i < k ==> (#[trigger] sample_of(st, n, k).0[i] as int) < n,
{
    lemma_identity_is_permutation(n);
    lemma_sample_up_permutes(st, identity(n), 0, k, n);
}

/// Exchange entries `i` and `j` of `v`.
fn swap_in_place(v: &mut Vec<u32>, i: usize, j: usize)
    requires
        i < old(v)@.len(),
        j < old(v)@.len(),
    ensures
        final(v)@ == swap_entries(old(v)@, i as int, j as int),
{
    let a = v[i];
    let b = v[j];
    v.set(i, b);
    v.set(j, a);
}

/// `0, 1, ..., n - 1`.
fn identity_vec(n: usize) -> (r: Vec<u32>)
    requires
        n <= u32::MAX as nat + 1,
    ensures
        r@ == identity(n as nat),
{
    let mut r: Vec<u32> = Vec::with_capacity(n);
    let mut i: usize = 0;
    while i < n
        invariant
            i <= n,
            n <= u32::MAX as nat + 1,
            r@ =~= identity(i as nat),
        decreases n - i,
    {
        r.push(i as u32);
        i = i + 1;
    }
    r
}

/// The eating order for a tick with `n` organisms: `0..n` shuffled by a
/// backward Fisher–Yates pass drawing from `rng`.
pub fn shuffled_order(rng: &mut Rng, n: usize) -> (r: Vec<u32>)
    requires
        n <= u32::MAX as nat + 1,
    ensures
        r@ == eating_order(old(rng)@, n as nat).0,
        final(rng)@ == eating_order(old(rng)@, n as nat).1,
        is_permutation(r@, n as nat),
{
    let mut order = identity_vec(n);
    proof {
        lemma_eating_order_is_permutation(rng@, n as nat);
    }
    if n == 0 {
        return order;
    }
    let ghost st0 = rng@;
    let mut k: usize = n - 1;
    while k > 0
        invariant
            k < n,
            order@.len() == n,
            shuffle_down(rng@, order@, k as nat) == shuffle_down(st0, identity(n as nat), (n - 1) as nat),
        decreases k,
    {
        let j = rng.below(k + 1);
        swap_in_place(&mut order, k, j);
        k = k - 1;
    }
    order
}

/// `k` distinct indices of `0..n`, drawn from `rng` by a forward partial
/// Fisher–Yates pass.
pub fn sample_indices(rng: &mut Rng, n: usize, k: usize) -> (r: Vec<u32>)
    requires
        k <= n,
        n <= u32::MAX as nat + 1,
    ensures
        r@ == sample_of(old(rng)@, n as nat, k as nat).0,
        final(rng)@ == sample_of(old(rng)@, n as nat, k as nat).1,
        r@.len() == k,
        r@.no_duplicates(),
        forall|i: int| 0 <= i < k ==> (#[trigger] r@[i] as int) < n,
{
    let mut order = identity_vec(n);
    let ghost st0 = rng@;
    proof {
        lemma_sample_is_distinct(st0, n as nat, k as nat);
    }
    let mut t: usize = 0;
    while t < k
        invariant
            t <= k <= n,
            order@.len() == n,
            sample_up(rng@, order@, t as nat, k as nat, n as nat) == sample_up(
                st0,
                identity(n as nat),
                0,
                k as nat,
                n as nat,
            ),
        decreases k - t,
    {
        let j = t + rng.below(n - t);
        swap_in_place(&mut order, t, j);
        t = t + 1;
    }
    let mut out: Vec<u32> = Vec::with_capacity(k);
    let mut i: usize = 0;
    while i < k
        invariant
            i <= k <= n,
            order@.len() == n,
            out@ =~= order@.take(i as int),
        decreases k - i,
    {
        out.push(order[i]);
        i = i + 1;
    }
    out
}

/// The seed of the throwaway metrics stream for tick `tick` of the world
/// seeded with `seed`: the same tick always samples the same organisms,
/// whoever asks and however often.
pub fn metrics_stream_seed(seed: u64, tick: u64) -> (r: u64)
    ensures
        r == metrics_seed(seed, tick),
{
    seed.wrapping_mul(SPLITMIX_GAMMA).wrapping_add(tick)
}

} // verus!
