//! The genome census: what did evolution actually build? It reads gene
//! lists only, so inspection can never perturb anything. It tells live
//! wiring from junk (the mutation ratchet adds connections faster than it
//! removes them, so length alone proves nothing): a gene is *weak* if its
//! weight is negligible, *dead* if it feeds or reads a hidden neuron that
//! nothing completes (a source of in-degree 0 emits a constant tanh(0) = 0;
//! a sink of out-degree 0 is never read), and live otherwise. Duplicate
//! genes on one edge are counted as *stacking*.

use crate::genome::{wired_in_range, wiring_key, Connection, N_HIDDEN, N_OUTPUTS, N_SENSES};
use std::collections::HashMap;
use vstd::arithmetic::power2::{lemma2_to64, pow2};
use vstd::prelude::*;

verus! {

/// The bit pattern of the single-precision weight 0.01: a gene whose weight
/// has magnitude below it is weak.
pub const WEAK_WEIGHT_BITS: u32 = 0x3C23_D70A;

/// The bit pattern of the single-precision weight 3.9: a gene whose weight
/// has magnitude above it sits at the weight clamp.
pub const CLAMP_WEIGHT_BITS: u32 = 0x4079_999A;

/// The bit pattern of single-precision infinity.
pub const INFINITY_BITS: u32 = 0x7F80_0000;

/// The length-histogram bucket of a genome with `n` genes: 0–7, 8–15,
/// 16–31, 32–63, 64–127, 128–255, 256–511, 512–1023, 1024 and more.
pub open spec fn hist_bucket_of(n: int) -> int {
    if n < 8 {
        0
    } else if n < 16 {
        1
    } else if n < 32 {
        2
    } else if n < 64 {
        3
    } else if n < 128 {
        4
    } else if n < 256 {
        5
    } else if n < 512 {
        6
    } else if n < 1024 {
        7
    } else {
        8
    }
}

/// The length histogram's buckets double: bucket 0 holds genomes of fewer
/// than 8 genes, bucket `b` for `1 <= b <= 7` holds exactly the lengths
/// `8 · 2^(b-1) <= n < 8 · 2^b`, and bucket 8 holds 1024 genes and more.
pub proof fn lemma_hist_buckets_double(n: int)
    requires
        n >= 0,
    ensures
        hist_bucket_of(n) == 0 <==> n < 8,
        hist_bucket_of(n) == 8 <==> n >= 1024,
        forall|b: int|
            #![trigger pow2(b as nat)]
            1 <= b <= 7 ==> (hist_bucket_of(n) == b <==> 8 * pow2((b - 1) as nat) <= n < 8 * pow2(
                b as nat,
            )),
{
    lemma2_to64();
}

/// The bucket of the genome-length histogram a genome of `n` genes falls
/// in.
pub fn hist_bucket(n: usize) -> (r: usize)
    ensures
        r == hist_bucket_of(n as int),
        r < 9,
        r == 0 <==> n < 8,
        r == 8 <==> n >= 1024,
        1 <= r <= 7 ==> 8 * pow2((r - 1) as nat) <= n < 8 * pow2(r as nat),
{
    proof {
        lemma_hist_buckets_double(n as int);
        lemma2_to64();
    }
    if n < 8 {
        0
    } else if n < 16 {
        1
    } else if n < 32 {
        2
    } else if n < 64 {
        3
    } else if n < 128 {
        4
    } else if n < 256 {
        5
    } else if n < 512 {
        6
    } else if n < 1024 {
        7
    } else {
        8
    }
}

/// The width of a histogram bar for `count` out of `total` (a zero total
/// counts as one): `40 · count / total` rounded to the nearest integer,
/// halves rounding up, and never less than one.
pub open spec fn bar_width(count: nat, total: nat) -> nat {
    let t: nat = if total == 0 {
        1
    } else {
        total
    };
    let w: nat = (80 * count + t) / (2 * t);
    if w == 0 {
        1
    } else {
        w
    }
}

/// A histogram bar: `bar_width(count, total)` hash signs.
pub fn bar(count: u64, total: u64) -> (s: String)
    requires
        bar_width(count as nat, total as nat) <= usize::MAX,
    ensures
        s@ == Seq::new(bar_width(count as nat, total as nat), |i: int| '#'),
{
    let t: u128 = if total == 0 {
        1
    } else {
        total as u128
    };
    let w128: u128 = (80 * (count as u128) + t) / (2 * t);
    let width: usize = if w128 == 0 {
        1
    } else {
        w128 as usize
    };
    let hash = "#";
    proof {
        reveal_strlit("#");
    }
    let mut s = String::new();
    let mut i: usize = 0;
    while i < width
        invariant
            i <= width,
            hash@ == seq!['#'],
            s@ == Seq::new(i as nat, |j: int| '#'),
        decreases width - i,
    {
        s.append(hash);
        i = i + 1;
        assert(s@ =~= Seq::new(i as nat, |j: int| '#'));
    }
    s
}

/// Genes of `s` that feed hidden neuron `k`.
pub open spec fn in_degree(s: Seq<Connection>, k: int) -> nat
    decreases s.len(),
{
    if s.len() == 0 {
        0
    } else {
        in_degree(s.drop_last(), k) + if !s.last().to_output && s.last().to as int == k {
            1nat
        } else {
            0nat
        }
    }
}

/// Genes of `s` that read hidden neuron `k`.
pub open spec fn out_degree(s: Seq<Connection>, k: int) -> nat
    decreases s.len(),
{
    if s.len() == 0 {
        0
    } else {
        out_degree(s.drop_last(), k) + if s.last().from_hidden && s.last().from as int == k {
            1nat
        } else {
            0nat
        }
    }
}

/// Hidden neuron `k` is alive: fed by at least one gene and read by at
/// least one.
pub open spec fn neuron_alive(s: Seq<Connection>, k: int) -> bool {
    in_degree(s, k) >= 1 && out_degree(s, k) >= 1
}

/// Alive hidden neurons among `0..m`.
pub open spec fn alive_count(s: Seq<Connection>, m: nat) -> nat
    decreases m,
{
    if m == 0 {
        0
    } else {
        alive_count(s, (m - 1) as nat) + if neuron_alive(s, m - 1) {
            1nat
        } else {
            0nat
        }
    }
}

/// The gene's weight has magnitude below 0.01. On bit patterns: with the
/// sign bit dropped, non-negative single-precision values are ordered as
/// their patterns, and every NaN pattern lies above the threshold (a NaN is
/// never below anything).
pub open spec fn is_weak(c: Connection) -> bool {
    (c.weight_bits % 0x8000_0000) < WEAK_WEIGHT_BITS
}

/// The gene's weight has magnitude above 3.9, at the weight clamp. On bit
/// patterns as for `is_weak`; NaN patterns, which lie above infinity's,
/// are never above anything.
pub open spec fn is_at_clamp(c: Connection) -> bool {
    CLAMP_WEIGHT_BITS < (c.weight_bits % 0x8000_0000) <= INFINITY_BITS
}

/// Genes of `t` whose weights sit at the clamp.
pub open spec fn at_clamp_count(t: Seq<Connection>) -> nat {
    count_where(t, |c: Connection| is_at_clamp(c))
}

/// The gene reads a hidden neuron nothing feeds, or feeds a hidden neuron
/// nothing reads.
pub open spec fn is_dead(s: Seq<Connection>, c: Connection) -> bool {
    (c.from_hidden && in_degree(s, c.from as int) == 0) || (!c.to_output && out_degree(
        s,
        c.to as int,
    ) == 0)
}

/// Genes of `t` satisfying `p`.
pub open spec fn count_where(t: Seq<Connection>, p: spec_fn(Connection) -> bool) -> nat
    decreases t.len(),
{
    if t.len() == 0 {
        0
    } else {
        count_where(t.drop_last(), p) + if p(t.last()) {
            1nat
        } else {
            0nat
        }
    }
}

/// The gene is live within genome `s`: neither weak nor dead.
pub open spec fn is_live(s: Seq<Connection>, c: Connection) -> bool {
    !is_weak(c) && !is_dead(s, c)
}

/// Genes of `t` that are weak.
pub open spec fn weak_count(t: Seq<Connection>) -> nat {
    count_where(t, |c: Connection| is_weak(c))
}

/// Genes of `t` (within genome `s`) that are dead but not weak.
pub open spec fn dead_count(s: Seq<Connection>, t: Seq<Connection>) -> nat {
    count_where(t, |c: Connection| !is_weak(c) && is_dead(s, c))
}

/// Genes of `t` (within genome `s`) that are live.
pub open spec fn live_count(s: Seq<Connection>, t: Seq<Connection>) -> nat {
    count_where(t, |c: Connection| is_live(s, c))
}

/// Live genes of `t` (within genome `s`) that read sense `k`.
pub open spec fn live_sense_count(s: Seq<Connection>, t: Seq<Connection>, k: int) -> nat {
    count_where(t, |c: Connection| is_live(s, c) && !c.from_hidden && c.from as int == k)
}

/// Live genes of `t` (within genome `s`) that drive output `k`.
pub open spec fn live_output_count(s: Seq<Connection>, t: Seq<Connection>, k: int) -> nat {
    count_where(t, |c: Connection| is_live(s, c) && c.to_output && c.to as int == k)
}

/// A count over a prefix is at most the prefix length.
pub proof fn lemma_count_where_bounded(t: Seq<Connection>, p: spec_fn(Connection) -> bool)
    ensures
        count_where(t, p) <= t.len(),
    decreases t.len(),
{
    if t.len() > 0 {
        lemma_count_where_bounded(t.drop_last(), p);
    }
}

/// Every gene is exactly one of weak, dead or live.
pub proof fn lemma_classes_partition(s: Seq<Connection>, t: Seq<Connection>)
    ensures
        weak_count(t) + dead_count(s, t) + live_count(s, t) == t.len(),
    decreases t.len(),
{
    if t.len() > 0 {
        lemma_classes_partition(s, t.drop_last());
    }
}

/// The gene classes of one genome.
pub struct GeneClasses {
    pub weak: usize,
    /// Genes whose weights sit at the clamp (of any class).
    pub at_clamp: usize,
    pub dead: usize,
    pub live: usize,
    /// Live genes reading each sense.
    pub sense_genes: Vec<u32>,
    /// Live genes driving each output.
    pub output_genes: Vec<u32>,
}

/// Classify every gene of a genome as weak, dead (but not weak) or live,
/// and count the live genes reading each sense and driving each output.
pub fn classify_genes(conns: &Vec<Connection>) -> (r: GeneClasses)
    requires
        forall|i: int| 0 <= i < conns@.len() ==> wired_in_range(#[trigger] conns@[i]),
        conns@.len() <= u32::MAX,
    ensures
        r.weak == weak_count(conns@),
        r.at_clamp == at_clamp_count(conns@),
        r.at_clamp <= conns@.len(),
        r.dead == dead_count(conns@, conns@),
        r.live == live_count(conns@, conns@),
        r.sense_genes@.len() == N_SENSES,
        r.output_genes@.len() == N_OUTPUTS,
        forall|k: int| 0 <= k < N_SENSES ==> #[trigger] r.sense_genes@[k] == live_sense_count(conns@, conns@, k),
        forall|k: int| 0 <= k < N_OUTPUTS ==> #[trigger] r.output_genes@[k] == live_output_count(conns@, conns@, k),
{
    let d = degrees(conns);
    let ghost s = conns@;
    let mut sense_genes = zeros(N_SENSES);
    let mut output_genes = zeros(N_OUTPUTS);
    let mut weak: usize = 0;
    let mut at_clamp: usize = 0;
    let mut dead: usize = 0;
    let mut live: usize = 0;
    let mut i: usize = 0;
    while i < conns.len()
        invariant
            s == conns@,
            i <= s.len(),
            s.len() <= u32::MAX,
            forall|q: int| 0 <= q < s.len() ==> wired_in_range(#[trigger] s[q]),
            d.in_deg@.len() == N_HIDDEN,
            d.out_deg@.len() == N_HIDDEN,
            forall|q: int| 0 <= q < N_HIDDEN ==> #[trigger] d.in_deg@[q] == in_degree(s, q),
            forall|q: int| 0 <= q < N_HIDDEN ==> #[trigger] d.out_deg@[q] == out_degree(s, q),
            weak == weak_count(s.take(i as int)),
            dead == dead_count(s, s.take(i as int)),
            live == live_count(s, s.take(i as int)),
            weak + dead + live == i,
            at_clamp == at_clamp_count(s.take(i as int)),
            at_clamp <= i,
            sense_genes@.len() == N_SENSES,
            output_genes@.len() == N_OUTPUTS,
            forall|k: int| 0 <= k < N_SENSES ==> #[trigger] sense_genes@[k] == live_sense_count(s, s.take(i as int), k),
            forall|k: int| 0 <= k < N_OUTPUTS ==> #[trigger] output_genes@[k] == live_output_count(s, s.take(i as int), k),
        decreases s.len() - i,
    {
        let c = conns[i];
        assert(wired_in_range(s[i as int]));
        let ghost pre = s.take(i as int);
        let ghost next = s.take(i as int + 1);
        assert(next.drop_last() =~= pre);
        assert(next.last() == c);
        proof {
            lemma_classes_partition(s, pre);
            assert forall|k: int| 0 <= k < N_SENSES implies live_sense_count(s, pre, k) <= i by {
                lemma_count_where_bounded(
                    pre,
                    |c: Connection| is_live(s, c) && !c.from_hidden && c.from as int == k,
                );
            }
            assert forall|k: int| 0 <= k < N_OUTPUTS implies live_output_count(s, pre, k) <= i by {
                lemma_count_where_bounded(
                    pre,
                    |c: Connection| is_live(s, c) && c.to_output && c.to as int == k,
                );
            }
        }
        let magnitude = c.weight_bits % 0x8000_0000;
        if CLAMP_WEIGHT_BITS < magnitude && magnitude <= INFINITY_BITS {
            at_clamp = at_clamp + 1;
        }
        let is_weak_gene = magnitude < WEAK_WEIGHT_BITS;
        let dead_src = c.from_hidden && d.in_deg[c.from as usize] == 0;
        let dead_sink = !c.to_output && d.out_deg[c.to as usize] == 0;
        if is_weak_gene {
            weak = weak + 1;
        } else if dead_src || dead_sink {
            dead = dead + 1;
        } else {
            live = live + 1;
            if !c.from_hidden {
                let f = c.from as usize;
                sense_genes.set(f, sense_genes[f] + 1);
            }
            if c.to_output {
                let t = c.to as usize;
                output_genes.set(t, output_genes[t] + 1);
            }
        }
        assert forall|k: int| 0 <= k < N_SENSES implies #[trigger] sense_genes@[k] == live_sense_count(
            s,
            next,
            k,
        ) by {}
        assert forall|k: int| 0 <= k < N_OUTPUTS implies #[trigger] output_genes@[k] == live_output_count(
            s,
            next,
            k,
        ) by {}
        i = i + 1;
    }
    assert(s.take(s.len() as int) =~= s);
    GeneClasses { weak, at_clamp, dead, live, sense_genes, output_genes }
}

/// `n` zeros.
fn zeros(n: usize) -> (r: Vec<u32>)
    ensures
        r@.len() == n,
        forall|k: int| 0 <= k < n ==> #[trigger] r@[k] == 0,
{
    let mut r: Vec<u32> = Vec::with_capacity(n);
    let mut k: usize = 0;
    while k < n
        invariant
            k <= n,
            r@.len() == k,
            forall|q: int| 0 <= q < k ==> #[trigger] r@[q] == 0,
        decreases n - k,
    {
        r.push(0);
        k = k + 1;
    }
    r
}

/// In- and out-degrees of every hidden neuron.
pub struct Degrees {
    pub in_deg: Vec<u32>,
    pub out_deg: Vec<u32>,
}

/// The in- and out-degree of each hidden neuron of a genome whose genes all
/// name neurons that exist.
pub fn degrees(conns: &Vec<Connection>) -> (r: Degrees)
    requires
        forall|i: int| 0 <= i < conns@.len() ==> wired_in_range(#[trigger] conns@[i]),
        conns@.len() <= u32::MAX,
    ensures
        r.in_deg@.len() == N_HIDDEN,
        r.out_deg@.len() == N_HIDDEN,
        forall|k: int| 0 <= k < N_HIDDEN ==> #[trigger] r.in_deg@[k] == in_degree(conns@, k),
        forall|k: int| 0 <= k < N_HIDDEN ==> #[trigger] r.out_deg@[k] == out_degree(conns@, k),
{
    let mut in_deg: Vec<u32> = Vec::with_capacity(N_HIDDEN);
    let mut out_deg: Vec<u32> = Vec::with_capacity(N_HIDDEN);
    let mut k: usize = 0;
    while k < N_HIDDEN
        invariant
            k <= N_HIDDEN,
            in_deg@.len() == k,
            out_deg@.len() == k,
            forall|q: int| 0 <= q < k ==> #[trigger] in_deg@[q] == 0,
            forall|q: int| 0 <= q < k ==> #[trigger] out_deg@[q] == 0,
        decreases N_HIDDEN - k,
    {
        in_deg.push(0);
        out_deg.push(0);
        k = k + 1;
    }
    let mut i: usize = 0;
    while i < conns.len()
        invariant
            i <= conns@.len(),
            conns@.len() <= u32::MAX,
            forall|q: int| 0 <= q < conns@.len() ==> wired_in_range(#[trigger] conns@[q]),
            in_deg@.len() == N_HIDDEN,
            out_deg@.len() == N_HIDDEN,
            forall|q: int| 0 <= q < N_HIDDEN ==> #[trigger] in_deg@[q] == in_degree(conns@.take(i as int), q),
            forall|q: int| 0 <= q < N_HIDDEN ==> #[trigger] out_deg@[q] == out_degree(conns@.take(i as int), q),
            forall|q: int| 0 <= q < N_HIDDEN ==> #[trigger] in_degree(conns@.take(i as int), q) <= i,
            forall|q: int| 0 <= q < N_HIDDEN ==> #[trigger] out_degree(conns@.take(i as int), q) <= i,
        decreases conns@.len() - i,
    {
        let c = conns[i];
        assert(wired_in_range(conns@[i as int]));
        let ghost pre = conns@.take(i as int);
        assert(conns@.take(i as int + 1).drop_last() =~= pre);
        if !c.to_output {
            let t = c.to as usize;
            in_deg.set(t, in_deg[t] + 1);
        }
        if c.from_hidden {
            let f = c.from as usize;
            out_deg.set(f, out_deg[f] + 1);
        }
        assert forall|q: int| 0 <= q < N_HIDDEN implies #[trigger] in_degree(
            conns@.take(i as int + 1),
            q,
        ) <= i + 1 by {
            assert(in_degree(pre, q) <= i);
        }
        assert forall|q: int| 0 <= q < N_HIDDEN implies #[trigger] out_degree(
            conns@.take(i as int + 1),
            q,
        ) <= i + 1 by {
            assert(out_degree(pre, q) <= i);
        }
        i = i + 1;
    }
    assert(conns@.take(conns@.len() as int) =~= conns@);
    Degrees { in_deg, out_deg }
}

/// The number of alive hidden neurons of a genome (fed by at least one
/// gene and read by at least one).
pub fn hidden_alive(conns: &Vec<Connection>) -> (r: u32)
    requires
        forall|i: int| 0 <= i < conns@.len() ==> wired_in_range(#[trigger] conns@[i]),
        conns@.len() <= u32::MAX,
    ensures
        r == alive_count(conns@, N_HIDDEN as nat),
{
    let d = degrees(conns);
    let mut count: u32 = 0;
    let mut k: usize = 0;
    while k < N_HIDDEN
        invariant
            k <= N_HIDDEN,
            d.in_deg@.len() == N_HIDDEN,
            d.out_deg@.len() == N_HIDDEN,
            forall|q: int| 0 <= q < N_HIDDEN ==> #[trigger] d.in_deg@[q] == in_degree(conns@, q),
            forall|q: int| 0 <= q < N_HIDDEN ==> #[trigger] d.out_deg@[q] == out_degree(conns@, q),
            count == alive_count(conns@, k as nat),
            count <= k,
        decreases N_HIDDEN - k,
    {
        if d.in_deg[k] >= 1 && d.out_deg[k] >= 1 {
            count = count + 1;
        }
        k = k + 1;
    }
    count
}

/// The distinct (source, sink) wirings of `s`.
pub open spec fn edge_set(s: Seq<Connection>) -> Set<int> {
    s.map_values(|c: Connection| wiring_key(c)).to_set()
}

/// Genes of `s` on wiring `x`.
pub open spec fn edge_multiplicity(s: Seq<Connection>, x: int) -> nat {
    count_where(s, |c: Connection| wiring_key(c) == x)
}

/// The wirings of `s` carried by two or more genes.
pub open spec fn stacked_set(s: Seq<Connection>) -> Set<int> {
    edge_set(s).filter(|x: int| edge_multiplicity(s, x) >= 2)
}

/// How a genome's genes share wirings.
pub struct EdgeStats {
    /// Distinct (source, sink) wirings.
    pub distinct: usize,
    /// Wirings carried by two or more genes.
    pub stacked: usize,
}

/// Count the distinct wirings of a genome and those stacked (carried by two
/// or more duplicate genes).
pub fn edge_stats(conns: &Vec<Connection>) -> (r: EdgeStats)
    requires
        conns@.len() <= u32::MAX,
    ensures
        r.distinct == edge_set(conns@).len(),
        r.stacked == stacked_set(conns@).len(),
        r.distinct <= conns@.len(),
        r.stacked <= r.distinct,
{
    broadcast use vstd::std_specs::hash::group_hash_axioms;

    let ghost s = conns@;
    // Genes per wiring, keyed by the wiring's rank.
    let mut counts: HashMap<u32, u32> = HashMap::new();
    let mut distinct: usize = 0;
    let mut stacked: usize = 0;
    let mut i: usize = 0;
    proof {
        assert(edge_set(s.take(0)) =~= Set::<int>::empty());
        assert(stacked_set(s.take(0)) =~= Set::<int>::empty());
    }
    while i < conns.len()
        invariant
            s == conns@,
            i <= s.len(),
            s.len() <= u32::MAX,
            distinct <= i,
            distinct == edge_set(s.take(i as int)).len(),
            stacked == stacked_set(s.take(i as int)).len(),
            stacked <= distinct,
            edge_set(s.take(i as int)).finite(),
            stacked_set(s.take(i as int)).finite(),
            forall|x: u32| #[trigger]
                counts@.contains_key(x) <==> edge_set(s.take(i as int)).contains(x as int),
            forall|x: u32|
                #[trigger] counts@.contains_key(x) ==> counts@[x] == edge_multiplicity(
                    s.take(i as int),
                    x as int,
                ) && counts@[x] <= i,
        decreases s.len() - i,
    {
        let c = conns[i];
        let k = c.wiring_rank();
        let ghost pre = s.take(i as int);
        let ghost next = s.take(i as int + 1);
        let ghost before = counts@;
        assert(next.drop_last() =~= pre);
        assert(next.last() == c);
        assert(next.map_values(|c: Connection| wiring_key(c)) =~= pre.map_values(
            |c: Connection| wiring_key(c),
        ).push(k as int));
        proof {
            pre.map_values(|c: Connection| wiring_key(c)).lemma_push_to_set_commute(k as int);
        }
        assert(edge_set(next) =~= edge_set(pre).insert(k as int));
        assert forall|x: int| #[trigger] edge_multiplicity(next, x) == edge_multiplicity(pre, x) + (
        if x == k as int {
            1int
        } else {
            0int
        }) by {}
        match counts.get(&k) {
            Some(n) => {
                let n = *n;
                assert(edge_set(pre).contains(k as int));
                assert(edge_set(next) =~= edge_set(pre));
                if n == 1 {
                    assert(stacked_set(next) =~= stacked_set(pre).insert(k as int));
                    assert(!stacked_set(pre).contains(k as int));
                    stacked = stacked + 1;
                } else {
                    assert(stacked_set(next) =~= stacked_set(pre));
                }
                counts.insert(k, n + 1);
            },
            None => {
                assert(!edge_set(pre).contains(k as int));
                assert(edge_multiplicity(pre, k as int) == 0) by {
                    lemma_absent_key_count(pre, k as int);
                }
                assert(stacked_set(next) =~= stacked_set(pre));
                counts.insert(k, 1);
                distinct = distinct + 1;
            },
        }
        assert forall|x: u32| #[trigger]
            counts@.contains_key(x) <==> edge_set(next).contains(x as int) by {
            if x != k {
                assert(before.contains_key(x) == counts@.contains_key(x));
            }
        }
        assert forall|x: u32| #[trigger] counts@.contains_key(x) implies counts@[x] == edge_multiplicity(
            next,
            x as int,
        ) && counts@[x] <= i + 1 by {
            if x != k {
                assert(before.contains_key(x));
                assert(counts@[x] == before[x]);
            }
        }
        proof {
            assert(stacked_set(next).subset_of(edge_set(next)));
            vstd::set_lib::lemma_len_subset(stacked_set(next), edge_set(next));
        }
        i = i + 1;
    }
    assert(s.take(s.len() as int) =~= s);
    EdgeStats { distinct, stacked }
}

/// A wiring no gene of `s` carries has multiplicity zero.
proof fn lemma_absent_key_count(s: Seq<Connection>, x: int)
    requires
        !edge_set(s).contains(x),
    ensures
        edge_multiplicity(s, x) == 0,
    decreases s.len(),
{
    if s.len() > 0 {
        let init = s.drop_last();
        assert(s.map_values(|c: Connection| wiring_key(c)) =~= init.map_values(
            |c: Connection| wiring_key(c),
        ).push(wiring_key(s.last())));
        assert(s.map_values(|c: Connection| wiring_key(c))[s.len() - 1] == wiring_key(s.last()));
        if edge_set(init).contains(x) {
            let m = init.map_values(|c: Connection| wiring_key(c));
            let i = choose|i: int| 0 <= i < m.len() && #[trigger] m[i] == x;
            assert(s.map_values(|c: Connection| wiring_key(c))[i] == x);
        }
        lemma_absent_key_count(init, x);
    }
}

/// `f` summed over the genomes `gs`.
pub open spec fn sum_over(gs: Seq<Seq<Connection>>, f: spec_fn(Seq<Connection>) -> nat) -> nat
    decreases gs.len(),
{
    if gs.len() == 0 {
        0
    } else {
        sum_over(gs.drop_last(), f) + f(gs.last())
    }
}

/// 1 if `b`, else 0.
pub open spec fn indicator(b: bool) -> nat {
    if b {
        1
    } else {
        0
    }
}

/// The shortest genome of `gs` (0 when there are none).
pub open spec fn min_len(gs: Seq<Seq<Connection>>) -> nat
    decreases gs.len(),
{
    if gs.len() == 0 {
        0
    } else if gs.len() == 1 {
        gs[0].len()
    } else {
        let m = min_len(gs.drop_last());
        if gs.last().len() < m {
            gs.last().len()
        } else {
            m
        }
    }
}

/// The longest genome of `gs` (0 when there are none).
pub open spec fn max_len(gs: Seq<Seq<Connection>>) -> nat
    decreases gs.len(),
{
    if gs.len() == 0 {
        0
    } else {
        let m = max_len(gs.drop_last());
        if gs.last().len() > m {
            gs.last().len()
        } else {
            m
        }
    }
}

/// A genome's length.
pub open spec fn genes_of() -> spec_fn(Seq<Connection>) -> nat {
    |g: Seq<Connection>| g.len()
}

/// A genome's weak genes.
pub open spec fn weak_of() -> spec_fn(Seq<Connection>) -> nat {
    |g: Seq<Connection>| weak_count(g)
}

/// A genome's genes with weights at the clamp.
pub open spec fn at_clamp_of() -> spec_fn(Seq<Connection>) -> nat {
    |g: Seq<Connection>| at_clamp_count(g)
}

/// A genome's dead (not weak) genes.
pub open spec fn dead_of() -> spec_fn(Seq<Connection>) -> nat {
    |g: Seq<Connection>| dead_count(g, g)
}

/// A genome's live genes.
pub open spec fn live_of() -> spec_fn(Seq<Connection>) -> nat {
    |g: Seq<Connection>| live_count(g, g)
}

/// A genome's distinct wirings.
pub open spec fn distinct_of() -> spec_fn(Seq<Connection>) -> nat {
    |g: Seq<Connection>| edge_set(g).len()
}

/// A genome's genes beyond the first on each wiring.
pub open spec fn dup_extras_of() -> spec_fn(Seq<Connection>) -> nat {
    |g: Seq<Connection>| (g.len() - edge_set(g).len()) as nat
}

/// A genome's stacked wirings.
pub open spec fn stacked_of() -> spec_fn(Seq<Connection>) -> nat {
    |g: Seq<Connection>| stacked_set(g).len()
}

/// A genome's alive hidden neurons.
pub open spec fn alive_of() -> spec_fn(Seq<Connection>) -> nat {
    |g: Seq<Connection>| alive_count(g, N_HIDDEN as nat)
}

/// 1 if the genome's length falls in histogram bucket `b`.
pub open spec fn in_bucket(b: int) -> spec_fn(Seq<Connection>) -> nat {
    |g: Seq<Connection>| indicator(hist_bucket_of(g.len() as int) == b)
}

/// 1 if hidden neuron `k` is alive in the genome.
pub open spec fn neuron_alive_in(k: int) -> spec_fn(Seq<Connection>) -> nat {
    |g: Seq<Connection>| indicator(neuron_alive(g, k))
}

/// The genome's live genes reading sense `k`.
pub open spec fn sense_genes_of(k: int) -> spec_fn(Seq<Connection>) -> nat {
    |g: Seq<Connection>| live_sense_count(g, g, k)
}

/// 1 if a live gene of the genome reads sense `k`.
pub open spec fn sense_user(k: int) -> spec_fn(Seq<Connection>) -> nat {
    |g: Seq<Connection>| indicator(live_sense_count(g, g, k) > 0)
}

/// The genome's live genes driving output `k`.
pub open spec fn output_genes_of(k: int) -> spec_fn(Seq<Connection>) -> nat {
    |g: Seq<Connection>| live_output_count(g, g, k)
}

/// 1 if a live gene of the genome drives output `k`.
pub open spec fn output_user(k: int) -> spec_fn(Seq<Connection>) -> nat {
    |g: Seq<Connection>| indicator(live_output_count(g, g, k) > 0)
}

/// Genes in all of `gs`.
pub open spec fn total_genes(gs: Seq<Seq<Connection>>) -> nat {
    sum_over(gs, genes_of())
}

/// Sums respect a pointwise bound.
pub proof fn lemma_sum_over_le(
    gs: Seq<Seq<Connection>>,
    f: spec_fn(Seq<Connection>) -> nat,
    h: spec_fn(Seq<Connection>) -> nat,
)
    requires
        forall|i: int| 0 <= i < gs.len() ==> f(#[trigger] gs[i]) <= h(gs[i]),
    ensures
        sum_over(gs, f) <= sum_over(gs, h),
    decreases gs.len(),
{
    if gs.len() > 0 {
        let init = gs.drop_last();
        assert forall|i: int| 0 <= i < init.len() implies f(#[trigger] init[i]) <= h(init[i]) by {
            assert(init[i] == gs[i]);
        }
        lemma_sum_over_le(init, f, h);
        assert(f(gs[gs.len() - 1]) <= h(gs[gs.len() - 1]));
    }
}

/// A sum over a prefix is at most the sum over the whole.
pub proof fn lemma_sum_over_prefix(gs: Seq<Seq<Connection>>, i: int, f: spec_fn(Seq<Connection>) -> nat)
    requires
        0 <= i <= gs.len(),
    ensures
        sum_over(gs.take(i), f) <= sum_over(gs, f),
    decreases gs.len() - i,
{
    if i < gs.len() {
        lemma_sum_over_prefix(gs, i + 1, f);
        assert(gs.take(i + 1).drop_last() =~= gs.take(i));
        assert(gs.take(i + 1).last() == gs[i]);
    } else {
        assert(gs.take(i) =~= gs);
    }
}

/// A sum of 0/1 indicators is at most the number of genomes.
pub proof fn lemma_sum_indicator_bounded(gs: Seq<Seq<Connection>>, f: spec_fn(Seq<Connection>) -> nat)
    requires
        forall|g: Seq<Connection>| #[trigger] f(g) <= 1,
    ensures
        sum_over(gs, f) <= gs.len(),
    decreases gs.len(),
{
    if gs.len() > 0 {
        lemma_sum_indicator_bounded(gs.drop_last(), f);
    }
}

/// Adding one genome to a prefix adds its measure to the sum.
pub proof fn lemma_sum_over_push(gs: Seq<Seq<Connection>>, i: int, f: spec_fn(Seq<Connection>) -> nat)
    requires
        0 <= i < gs.len(),
    ensures
        sum_over(gs.take(i + 1), f) == sum_over(gs.take(i), f) + f(gs[i]),
{
    assert(gs.take(i + 1).drop_last() =~= gs.take(i));
    assert(gs.take(i + 1).last() == gs[i]);
}

/// Genes that feed a hidden neuron below `m`.
pub open spec fn feeds_below(m: int) -> spec_fn(Connection) -> bool {
    |c: Connection| !c.to_output && (c.to as int) < m
}

/// Feeding a neuron below `m + 1` is feeding one below `m` or feeding `m`.
proof fn lemma_feeds_below_step(s: Seq<Connection>, m: int)
    ensures
        count_where(s, feeds_below(m + 1)) == count_where(s, feeds_below(m)) + in_degree(s, m),
    decreases s.len(),
{
    if s.len() > 0 {
        lemma_feeds_below_step(s.drop_last(), m);
    }
}

/// Each alive hidden neuron is fed by a gene of its own, so a genome has at
/// most as many alive hidden neurons as genes.
pub proof fn lemma_alive_at_most_genes(s: Seq<Connection>, m: nat)
    ensures
        alive_count(s, m) <= count_where(s, feeds_below(m as int)),
        alive_count(s, m) <= s.len(),
    decreases m,
{
    if m > 0 {
        lemma_alive_at_most_genes(s, (m - 1) as nat);
        lemma_feeds_below_step(s, m - 1);
    }
    lemma_count_where_bounded(s, feeds_below(m as int));
}

/// Live genes reading one sense are at most the genes.
proof fn lemma_sense_genes_bounded(s: Seq<Connection>, k: int)
    ensures
        live_sense_count(s, s, k) <= s.len(),
{
    lemma_count_where_bounded(s, |c: Connection| is_live(s, c) && !c.from_hidden && c.from as int == k);
}

/// Live genes driving one output are at most the genes.
proof fn lemma_output_genes_bounded(s: Seq<Connection>, k: int)
    ensures
        live_output_count(s, s, k) <= s.len(),
{
    lemma_count_where_bounded(s, |c: Connection| is_live(s, c) && c.to_output && c.to as int == k);
}

/// The integer tallies of a census over a population's genomes.
pub struct Census {
    pub organisms: usize,
    pub genes: u64,
    pub distinct_edges: u64,
    /// Genes beyond the first on each wiring.
    pub dup_extras: u64,
    pub weak: u64,
    pub dead: u64,
    pub live: u64,
    /// Genes whose weights sit at the clamp.
    pub weights_at_clamp: u64,
    /// Wirings carried by two or more genes.
    pub stacked_edges: u64,
    pub len_min: usize,
    pub len_max: usize,
    /// Genomes per length bucket (see `hist_bucket`).
    pub len_hist: Vec<u64>,
    /// Alive hidden neurons, summed over organisms.
    pub hidden_alive_total: u64,
    /// Organisms in which each hidden neuron is alive.
    pub hidden_alive_by_neuron: Vec<u64>,
    /// Live genes reading each sense.
    pub sense_genes: Vec<u64>,
    /// Organisms with a live gene reading each sense.
    pub sense_users: Vec<u64>,
    /// Live genes driving each output.
    pub output_genes: Vec<u64>,
    /// Organisms with a live gene driving each output.
    pub output_users: Vec<u64>,
}

/// `n` zeros.
fn zeros64(n: usize) -> (r: Vec<u64>)
    ensures
        r@.len() == n,
        forall|k: int| 0 <= k < n ==> #[trigger] r@[k] == 0,
{
    let mut r: Vec<u64> = Vec::with_capacity(n);
    let mut k: usize = 0;
    while k < n
        invariant
            k <= n,
            r@.len() == k,
            forall|q: int| 0 <= q < k ==> #[trigger] r@[q] == 0,
        decreases n - k,
    {
        r.push(0);
        k = k + 1;
    }
    r
}

/// The genomes of a population, as sequences of genes.
pub open spec fn genome_views(genomes: Seq<Vec<Connection>>) -> Seq<Seq<Connection>> {
    genomes.map_values(|v: Vec<Connection>| v@)
}

/// The census of a population: how long its genomes are, how their genes
/// divide into live, weak and dead wiring, how wirings stack, which hidden
/// neurons are alive, and which senses and outputs live wiring uses.
pub fn census(genomes: &Vec<Vec<Connection>>) -> (r: Census)
    requires
        forall|i: int, j: int|
            0 <= i < genomes@.len() && 0 <= j < genomes@[i]@.len() ==> wired_in_range(
                #[trigger] genomes@[i]@[j],
            ),
        forall|i: int| 0 <= i < genomes@.len() ==> (#[trigger] genomes@[i]@.len()) <= u32::MAX,
        total_genes(genome_views(genomes@)) <= u64::MAX,
    ensures
        r.organisms == genomes@.len(),
        r.genes == total_genes(genome_views(genomes@)),
        r.weak == sum_over(genome_views(genomes@), weak_of()),
        r.weights_at_clamp == sum_over(genome_views(genomes@), at_clamp_of()),
        r.dead == sum_over(genome_views(genomes@), dead_of()),
        r.live == sum_over(genome_views(genomes@), live_of()),
        r.distinct_edges == sum_over(genome_views(genomes@), distinct_of()),
        r.dup_extras == sum_over(
            genome_views(genomes@),
            dup_extras_of(),
        ),
        r.stacked_edges == sum_over(genome_views(genomes@), stacked_of()),
        r.len_min == min_len(genome_views(genomes@)),
        r.len_max == max_len(genome_views(genomes@)),
        r.len_hist@.len() == 9,
        forall|b: int|
            0 <= b < 9 ==> #[trigger] r.len_hist@[b] == sum_over(
                genome_views(genomes@),
                in_bucket(b),
            ),
        r.hidden_alive_total == sum_over(
            genome_views(genomes@),
            alive_of(),
        ),
        r.hidden_alive_by_neuron@.len() == N_HIDDEN,
        forall|k: int|
            0 <= k < N_HIDDEN ==> #[trigger] r.hidden_alive_by_neuron@[k] == sum_over(
                genome_views(genomes@),
                neuron_alive_in(k),
            ),
        r.sense_genes@.len() == N_SENSES,
        r.sense_users@.len() == N_SENSES,
        forall|k: int|
            0 <= k < N_SENSES ==> #[trigger] r.sense_genes@[k] == sum_over(
                genome_views(genomes@),
                sense_genes_of(k),
            ),
        forall|k: int|
            0 <= k < N_SENSES ==> #[trigger] r.sense_users@[k] == sum_over(
                genome_views(genomes@),
                sense_user(k),
            ),
        r.output_genes@.len() == N_OUTPUTS,
        r.output_users@.len() == N_OUTPUTS,
        forall|k: int|
            0 <= k < N_OUTPUTS ==> #[trigger] r.output_genes@[k] == sum_over(
                genome_views(genomes@),
                output_genes_of(k),
            ),
        forall|k: int|
            0 <= k < N_OUTPUTS ==> #[trigger] r.output_users@[k] == sum_over(
                genome_views(genomes@),
                output_user(k),
            ),
{
    let ghost gs = genome_views(genomes@);
    let mut genes: u64 = 0;
    let mut weak: u64 = 0;
    let mut weights_at_clamp: u64 = 0;
    let mut dead: u64 = 0;
    let mut live: u64 = 0;
    let mut distinct_edges: u64 = 0;
    let mut dup_extras: u64 = 0;
    let mut stacked_edges: u64 = 0;
    let mut hidden_alive_total: u64 = 0;
    let mut len_min: usize = usize::MAX;
    let mut len_max: usize = 0;
    let mut len_hist = zeros64(9);
    let mut alive_by_neuron = zeros64(N_HIDDEN);
    let mut sense_genes = zeros64(N_SENSES);
    let mut sense_users = zeros64(N_SENSES);
    let mut output_genes = zeros64(N_OUTPUTS);
    let mut output_users = zeros64(N_OUTPUTS);
    let mut i: usize = 0;
    while i < genomes.len()
        invariant
            gs == genome_views(genomes@),
            gs.len() == genomes@.len(),
            i <= genomes@.len(),
            forall|a: int, j: int|
                0 <= a < genomes@.len() && 0 <= j < genomes@[a]@.len() ==> wired_in_range(
                    #[trigger] genomes@[a]@[j],
                ),
            forall|a: int| 0 <= a < genomes@.len() ==> (#[trigger] genomes@[a]@.len()) <= u32::MAX,
            total_genes(gs) <= u64::MAX,
            genes == total_genes(gs.take(i as int)),
            weak <= genes,
            weights_at_clamp <= genes,
            dead <= genes,
            live <= genes,
            distinct_edges <= genes,
            dup_extras <= genes,
            stacked_edges <= genes,
            hidden_alive_total <= genes,
            weak == sum_over(gs.take(i as int), weak_of()),
            weights_at_clamp == sum_over(gs.take(i as int), at_clamp_of()),
            dead == sum_over(gs.take(i as int), dead_of()),
            live == sum_over(gs.take(i as int), live_of()),
            distinct_edges == sum_over(gs.take(i as int), distinct_of()),
            dup_extras == sum_over(gs.take(i as int), dup_extras_of()),
            stacked_edges == sum_over(gs.take(i as int), stacked_of()),
            hidden_alive_total == sum_over(gs.take(i as int), alive_of()),
            i == 0 ==> len_min == usize::MAX,
            i > 0 ==> len_min == min_len(gs.take(i as int)),
            len_max == max_len(gs.take(i as int)),
            len_hist@.len() == 9,
            forall|b: int|
                0 <= b < 9 ==> #[trigger] len_hist@[b] == sum_over(gs.take(i as int), in_bucket(b)),
            forall|b: int| 0 <= b < 9 ==> #[trigger] len_hist@[b] <= i,
            alive_by_neuron@.len() == N_HIDDEN,
            forall|k: int|
                0 <= k < N_HIDDEN ==> #[trigger] alive_by_neuron@[k] == sum_over(
                    gs.take(i as int),
                    neuron_alive_in(k),
                ),
            forall|k: int| 0 <= k < N_HIDDEN ==> #[trigger] alive_by_neuron@[k] <= i,
            sense_genes@.len() == N_SENSES,
            sense_users@.len() == N_SENSES,
            forall|k: int|
                0 <= k < N_SENSES ==> #[trigger] sense_genes@[k] == sum_over(gs.take(i as int), sense_genes_of(k)),
            forall|k: int|
                0 <= k < N_SENSES ==> #[trigger] sense_users@[k] == sum_over(gs.take(i as int), sense_user(k)),
            forall|k: int| 0 <= k < N_SENSES ==> #[trigger] sense_genes@[k] <= genes,
            forall|k: int| 0 <= k < N_SENSES ==> #[trigger] sense_users@[k] <= i,
            output_genes@.len() == N_OUTPUTS,
            output_users@.len() == N_OUTPUTS,
            forall|k: int|
                0 <= k < N_OUTPUTS ==> #[trigger] output_genes@[k] == sum_over(
                    gs.take(i as int),
                    output_genes_of(k),
                ),
            forall|k: int|
                0 <= k < N_OUTPUTS ==> #[trigger] output_users@[k] == sum_over(gs.take(i as int), output_user(k)),
            forall|k: int| 0 <= k < N_OUTPUTS ==> #[trigger] output_genes@[k] <= genes,
            forall|k: int| 0 <= k < N_OUTPUTS ==> #[trigger] output_users@[k] <= i,
        decreases genomes@.len() - i,
    {
        let g = &genomes[i];
        let ghost gv = g@;
        let ghost pre = gs.take(i as int);
        let ghost next = gs.take(i as int + 1);
        assert(gs[i as int] == gv);
        assert forall|j: int| 0 <= j < gv.len() implies wired_in_range(#[trigger] gv[j]) by {
            assert(gv[j] == genomes@[i as int]@[j]);
        }
        assert(gv.len() <= u32::MAX);
        proof {
            lemma_sum_over_prefix(gs, i as int + 1, genes_of());
            lemma_sum_over_push(gs, i as int, genes_of());
            lemma_classes_partition(gv, gv);
            lemma_alive_at_most_genes(gv, N_HIDDEN as nat);
            lemma_sum_over_push(gs, i as int, weak_of());
            lemma_sum_over_push(gs, i as int, at_clamp_of());
            lemma_sum_over_push(gs, i as int, dead_of());
            lemma_sum_over_push(gs, i as int, live_of());
            lemma_sum_over_push(gs, i as int, distinct_of());
            lemma_sum_over_push(gs, i as int, dup_extras_of());
            lemma_sum_over_push(gs, i as int, stacked_of());
            lemma_sum_over_push(gs, i as int, alive_of());
        }
        let n = g.len();
        let classes = classify_genes(g);
        let edges = edge_stats(g);
        let alive = hidden_alive(g);
        let d = degrees(g);
        let ghost genes_before = genes;
        genes = genes + n as u64;
        weak = weak + classes.weak as u64;
        weights_at_clamp = weights_at_clamp + classes.at_clamp as u64;
        dead = dead + classes.dead as u64;
        live = live + classes.live as u64;
        distinct_edges = distinct_edges + edges.distinct as u64;
        dup_extras = dup_extras + (n - edges.distinct) as u64;
        stacked_edges = stacked_edges + edges.stacked as u64;
        hidden_alive_total = hidden_alive_total + alive as u64;
        assert(next.drop_last() =~= pre);
        assert(next.last() == gv);
        if n < len_min {
            len_min = n;
        }
        if n > len_max {
            len_max = n;
        }
        let bucket = hist_bucket(n);
        let hb = len_hist[bucket];
        len_hist.set(bucket, hb + 1);
        assert forall|b: int| 0 <= b < 9 implies #[trigger] len_hist@[b] == sum_over(next, in_bucket(b))
            by {
            lemma_sum_over_push(gs, i as int, in_bucket(b));
        }
        let mut k: usize = 0;
        while k < N_HIDDEN
            invariant
                k <= N_HIDDEN,
                i < genomes@.len(),
                genomes@.len() <= usize::MAX,
                gs.len() == genomes@.len(),
                gs[i as int] == gv,
                pre == gs.take(i as int),
                next == gs.take(i as int + 1),
                d.in_deg@.len() == N_HIDDEN,
                d.out_deg@.len() == N_HIDDEN,
                forall|q: int| 0 <= q < N_HIDDEN ==> #[trigger] d.in_deg@[q] == in_degree(gv, q),
                forall|q: int| 0 <= q < N_HIDDEN ==> #[trigger] d.out_deg@[q] == out_degree(gv, q),
                alive_by_neuron@.len() == N_HIDDEN,
                forall|q: int|
                    0 <= q < k ==> #[trigger] alive_by_neuron@[q] == sum_over(next, neuron_alive_in(q)),
                forall|q: int|
                    k <= q < N_HIDDEN ==> #[trigger] alive_by_neuron@[q] == sum_over(pre, neuron_alive_in(q)),
                forall|q: int| 0 <= q < k ==> #[trigger] alive_by_neuron@[q] <= i + 1,
                forall|q: int| k <= q < N_HIDDEN ==> #[trigger] alive_by_neuron@[q] <= i,
            decreases N_HIDDEN - k,
        {
            proof {
                lemma_sum_over_push(gs, i as int, neuron_alive_in(k as int));
            }
            assert(usize::MAX <= u64::MAX);
            if d.in_deg[k] >= 1 && d.out_deg[k] >= 1 {
                let v = alive_by_neuron[k];
                alive_by_neuron.set(k, v + 1);
            }
            k = k + 1;
        }
        let mut k: usize = 0;
        while k < N_SENSES
            invariant
                k <= N_SENSES,
                i < genomes@.len(),
                genomes@.len() <= usize::MAX,
                gs.len() == genomes@.len(),
                gs[i as int] == gv,
                pre == gs.take(i as int),
                next == gs.take(i as int + 1),
                classes.sense_genes@.len() == N_SENSES,
                forall|q: int|
                    0 <= q < N_SENSES ==> #[trigger] classes.sense_genes@[q] == live_sense_count(gv, gv, q),
                sense_genes@.len() == N_SENSES,
                sense_users@.len() == N_SENSES,
                genes == genes_before + gv.len(),
                genes <= u64::MAX,
                forall|q: int| 0 <= q < k ==> #[trigger] sense_genes@[q] == sum_over(next, sense_genes_of(q)),
                forall|q: int|
                    k <= q < N_SENSES ==> #[trigger] sense_genes@[q] == sum_over(pre, sense_genes_of(q)),
                forall|q: int| 0 <= q < k ==> #[trigger] sense_users@[q] == sum_over(next, sense_user(q)),
                forall|q: int| k <= q < N_SENSES ==> #[trigger] sense_users@[q] == sum_over(pre, sense_user(q)),
                forall|q: int| 0 <= q < k ==> #[trigger] sense_genes@[q] <= genes,
                forall|q: int| k <= q < N_SENSES ==> #[trigger] sense_genes@[q] <= genes_before,
                forall|q: int| 0 <= q < k ==> #[trigger] sense_users@[q] <= i + 1,
                forall|q: int| k <= q < N_SENSES ==> #[trigger] sense_users@[q] <= i,
            decreases N_SENSES - k,
        {
            proof {
                lemma_sum_over_push(gs, i as int, sense_genes_of(k as int));
                lemma_sum_over_push(gs, i as int, sense_user(k as int));
                lemma_sense_genes_bounded(gv, k as int);
            }
            assert(usize::MAX <= u64::MAX);
            let x = classes.sense_genes[k];
            let v = sense_genes[k];
            sense_genes.set(k, v + x as u64);
            if x > 0 {
                let u = sense_users[k];
                sense_users.set(k, u + 1);
            }
            k = k + 1;
        }
        let mut k: usize = 0;
        while k < N_OUTPUTS
            invariant
                k <= N_OUTPUTS,
                i < genomes@.len(),
                genomes@.len() <= usize::MAX,
                gs.len() == genomes@.len(),
                gs[i as int] == gv,
                pre == gs.take(i as int),
                next == gs.take(i as int + 1),
                classes.output_genes@.len() == N_OUTPUTS,
                forall|q: int|
                    0 <= q < N_OUTPUTS ==> #[trigger] classes.output_genes@[q] == live_output_count(gv, gv, q),
                output_genes@.len() == N_OUTPUTS,
                output_users@.len() == N_OUTPUTS,
                genes == genes_before + gv.len(),
                genes <= u64::MAX,
                forall|q: int| 0 <= q < k ==> #[trigger] output_genes@[q] == sum_over(next, output_genes_of(q)),
                forall|q: int|
                    k <= q < N_OUTPUTS ==> #[trigger] output_genes@[q] == sum_over(pre, output_genes_of(q)),
                forall|q: int| 0 <= q < k ==> #[trigger] output_users@[q] == sum_over(next, output_user(q)),
                forall|q: int| k <= q < N_OUTPUTS ==> #[trigger] output_users@[q] == sum_over(pre, output_user(q)),
                forall|q: int| 0 <= q < k ==> #[trigger] output_genes@[q] <= genes,
                forall|q: int| k <= q < N_OUTPUTS ==> #[trigger] output_genes@[q] <= genes_before,
                forall|q: int| 0 <= q < k ==> #[trigger] output_users@[q] <= i + 1,
                forall|q: int| k <= q < N_OUTPUTS ==> #[trigger] output_users@[q] <= i,
            decreases N_OUTPUTS - k,
        {
            proof {
                lemma_sum_over_push(gs, i as int, output_genes_of(k as int));
                lemma_sum_over_push(gs, i as int, output_user(k as int));
                lemma_output_genes_bounded(gv, k as int);
            }
            assert(usize::MAX <= u64::MAX);
            let x = classes.output_genes[k];
            let v = output_genes[k];
            output_genes.set(k, v + x as u64);
            if x > 0 {
                let u = output_users[k];
                output_users.set(k, u + 1);
            }
            k = k + 1;
        }
        i = i + 1;
    }
    if genomes.len() == 0 {
        len_min = 0;
    }
    assert(gs.take(genomes@.len() as int) =~= gs);
    Census {
        organisms: genomes.len(),
        genes,
        distinct_edges,
        dup_extras,
        weak,
        dead,
        live,
        weights_at_clamp,
        stacked_edges,
        len_min,
        len_max,
        len_hist,
        hidden_alive_total,
        hidden_alive_by_neuron: alive_by_neuron,
        sense_genes,
        sense_users,
        output_genes,
        output_users,
    }
}

} // verus!
