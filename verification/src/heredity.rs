//! Heredity's wiring: which genes a founder draws and how a child's wiring
//! errs — point rewiring, and occasional gene addition, removal and
//! duplication — with the random draws taken from the stream in a fixed
//! order. Weights are floating point, so they are left pending here: each
//! gene says how its weight is to be made, from the very draws the stream
//! gave, and the caller does the arithmetic.
//!
//! A chance `p` is decided by a 24-bit draw `b`: the event happens when
//! `b · 2^-24 < p`, that is when `b` is below the threshold
//! `ceil(p · 2^24)`. Thresholds are what this module takes.

use crate::genome::{wired_in_range, Connection, N_HIDDEN, N_OUTPUTS, N_SENSES};
use crate::rng::{xoshiro_output, xoshiro_step, Rng};
use vstd::prelude::*;

verus! {

/// The threshold for a chance of one half.
pub const HALF_ODDS: u32 = 0x80_0000;

/// The threshold for the chance (0.2) that a drawn source is a hidden
/// neuron rather than a sense.
pub const FROM_HIDDEN_ODDS: u32 = 3_355_444;

/// The threshold for the chance (0.7) that a drawn sink is an output rather
/// than a hidden neuron.
pub const TO_OUTPUT_ODDS: u32 = 11_744_051;

/// How a gene's weight is to be made.
#[derive(Clone, Copy, Debug, PartialEq, Eq, Structural)]
pub enum WeightChange {
    /// Keep the weight the gene has.
    Keep,
    /// Add Gaussian noise made by Box–Muller from a 53-bit and a 24-bit
    /// uniform draw, in that order.
    Perturb { uniform53: u64, uniform24: u32 },
    /// A fresh weight, uniform on the weight range, from a 24-bit draw.
    Fresh { uniform24: u32 },
}

/// A gene whose wiring is decided and whose weight is pending.
#[derive(Clone, Copy, Debug, PartialEq, Eq, Structural)]
pub struct PendingGene {
    /// The wiring; its weight bits are the old weight (zero for a fresh
    /// gene) until `weight` is applied.
    pub gene: Connection,
    pub weight: WeightChange,
}

/// The thresholds (on 24-bit draws) of the per-child mutation chances.
#[derive(Clone, Copy, Debug)]
pub struct MutationOdds {
    /// Per gene: perturb the weight.
    pub weight: u32,
    /// Per gene: rewire one end.
    pub rewire: u32,
    /// Per child: add a random gene.
    pub add: u32,
    /// Per child: remove a gene.
    pub remove: u32,
    /// Per child: duplicate a gene.
    pub duplicate: u32,
}

/// The 24-bit draw the stream gives at state `s`.
pub open spec fn bits24(s: (u64, u64, u64, u64)) -> u32 {
    (xoshiro_output(s) >> 40u64) as u32
}

/// The 53-bit draw the stream gives at state `s`.
pub open spec fn bits53(s: (u64, u64, u64, u64)) -> u64 {
    xoshiro_output(s) >> 11u64
}

/// The draw in `[0, n)` the stream gives at state `s`.
pub open spec fn below_at(s: (u64, u64, u64, u64), n: int) -> int {
    xoshiro_output(s) as int % n
}

/// A random gene drawn from state `s`, and the state after it: source
/// kind, sink kind, source, sink, then the weight draw.
pub open spec fn random_gene_at(s: (u64, u64, u64, u64)) -> (PendingGene, (u64, u64, u64, u64)) {
    let from_hidden = bits24(s) < FROM_HIDDEN_ODDS;
    let s1 = xoshiro_step(s);
    let to_output = bits24(s1) < TO_OUTPUT_ODDS;
    let s2 = xoshiro_step(s1);
    let from = below_at(
        s2,
        if from_hidden {
            N_HIDDEN as int
        } else {
            N_SENSES as int
        },
    );
    let s3 = xoshiro_step(s2);
    let to = below_at(
        s3,
        if to_output {
            N_OUTPUTS as int
        } else {
            N_HIDDEN as int
        },
    );
    let s4 = xoshiro_step(s3);
    (
        PendingGene {
            gene: Connection { from_hidden, from: from as u8, to_output, to: to as u8, weight_bits: 0 },
            weight: WeightChange::Fresh { uniform24: bits24(s4) },
        },
        xoshiro_step(s4),
    )
}

/// Gene `g` after its per-gene errors drawn from state `s`, and the state
/// after them: maybe a weight perturbation, then maybe a rewiring of its
/// source or (equally likely) its sink.
pub open spec fn gene_errors_at(s: (u64, u64, u64, u64), g: Connection, odds: MutationOdds) -> (
    PendingGene,
    (u64, u64, u64, u64),
) {
    let perturb = bits24(s) < odds.weight;
    let s1 = xoshiro_step(s);
    let change = if perturb {
        WeightChange::Perturb { uniform53: bits53(s1), uniform24: bits24(xoshiro_step(s1)) }
    } else {
        WeightChange::Keep
    };
    let s2 = if perturb {
        xoshiro_step(xoshiro_step(s1))
    } else {
        s1
    };
    let rewire = bits24(s2) < odds.rewire;
    let s3 = xoshiro_step(s2);
    if !rewire {
        (PendingGene { gene: g, weight: change }, s3)
    } else {
        let source_end = bits24(s3) < HALF_ODDS;
        let s4 = xoshiro_step(s3);
        if source_end {
            let from_hidden = bits24(s4) < FROM_HIDDEN_ODDS;
            let s5 = xoshiro_step(s4);
            let from = below_at(
                s5,
                if from_hidden {
                    N_HIDDEN as int
                } else {
                    N_SENSES as int
                },
            );
            (
                PendingGene {
                    gene: Connection {
                        from_hidden,
                        from: from as u8,
                        to_output: g.to_output,
                        to: g.to,
                        weight_bits: g.weight_bits,
                    },
                    weight: change,
                },
                xoshiro_step(s5),
            )
        } else {
            let to_output = bits24(s4) < TO_OUTPUT_ODDS;
            let s5 = xoshiro_step(s4);
            let to = below_at(
                s5,
                if to_output {
                    N_OUTPUTS as int
                } else {
                    N_HIDDEN as int
                },
            );
            (
                PendingGene {
                    gene: Connection {
                        from_hidden: g.from_hidden,
                        from: g.from,
                        to_output,
                        to: to as u8,
                        weight_bits: g.weight_bits,
                    },
                    weight: change,
                },
                xoshiro_step(s5),
            )
        }
    }
}

/// The first `k` genes of `genes` after their per-gene errors, drawn in
/// order from state `s`, and the state after them.
pub open spec fn genes_errors_at(
    s: (u64, u64, u64, u64),
    genes: Seq<Connection>,
    odds: MutationOdds,
    k: nat,
) -> (Seq<PendingGene>, (u64, u64, u64, u64))
    decreases k,
{
    if k == 0 {
        (Seq::empty(), s)
    } else {
        let (done, s1) = genes_errors_at(s, genes, odds, (k - 1) as nat);
        let (g, s2) = gene_errors_at(s1, genes[k - 1], odds);
        (done.push(g), s2)
    }
}

/// Maybe a random gene appended to `g` (while under `cap` genes), drawn
/// from state `s`; the chance is drawn whether or not the count allows it.
pub open spec fn addition_at(s: (u64, u64, u64, u64), g: Seq<PendingGene>, odds: MutationOdds, cap: nat) -> (
    Seq<PendingGene>,
    (u64, u64, u64, u64),
) {
    if bits24(s) < odds.add && g.len() < cap {
        let (fresh, s2) = random_gene_at(xoshiro_step(s));
        (g.push(fresh), s2)
    } else {
        (g, xoshiro_step(s))
    }
}

/// Maybe one gene of `g` removed (while more than one is left), drawn from
/// state `s`.
pub open spec fn removal_at(s: (u64, u64, u64, u64), g: Seq<PendingGene>, odds: MutationOdds) -> (
    Seq<PendingGene>,
    (u64, u64, u64, u64),
) {
    if bits24(s) < odds.remove && g.len() > 1 {
        let s1 = xoshiro_step(s);
        (g.remove(below_at(s1, g.len() as int)), xoshiro_step(s1))
    } else {
        (g, xoshiro_step(s))
    }
}

/// Maybe a copy of one gene of `g` appended (while there is one and the
/// count is under `cap`), drawn from state `s`.
pub open spec fn duplication_at(s: (u64, u64, u64, u64), g: Seq<PendingGene>, odds: MutationOdds, cap: nat) -> (
    Seq<PendingGene>,
    (u64, u64, u64, u64),
) {
    if bits24(s) < odds.duplicate && g.len() > 0 && g.len() < cap {
        let s1 = xoshiro_step(s);
        (g.push(g[below_at(s1, g.len() as int)]), xoshiro_step(s1))
    } else {
        (g, xoshiro_step(s))
    }
}

/// A child's wiring, copied from `genes` with errors drawn from state `s`,
/// and the state after them: every gene's own errors in order, then maybe
/// an addition, a removal and a duplication, in that order.
pub open spec fn mutation_at(
    s: (u64, u64, u64, u64),
    genes: Seq<Connection>,
    odds: MutationOdds,
    cap: nat,
) -> (Seq<PendingGene>, (u64, u64, u64, u64)) {
    let (g0, s1) = genes_errors_at(s, genes, odds, genes.len());
    let (g1, s2) = addition_at(s1, g0, odds, cap);
    let (g2, s3) = removal_at(s2, g1, odds);
    duplication_at(s3, g2, odds, cap)
}

/// `p` is parent gene `g` after per-gene errors: it keeps `g`'s weight
/// (perturbed or not, never redrawn) and at least one of its two ends.
pub open spec fn inherits(p: PendingGene, g: Connection) -> bool {
    &&& p.gene.weight_bits == g.weight_bits
    &&& !(p.weight is Fresh)
    &&& (p.gene.from_hidden == g.from_hidden && p.gene.from == g.from) || (p.gene.to_output
        == g.to_output && p.gene.to == g.to)
}

/// `p` is a fresh gene (a fresh weight pending, weight bits zero) or
/// inherits from one of the parent genes `genes`.
pub open spec fn descends(p: PendingGene, genes: Seq<Connection>) -> bool {
    ||| (p.weight is Fresh && p.gene.weight_bits == 0)
    ||| exists|k: int| 0 <= k < genes.len() && #[trigger] inherits(p, genes[k])
}

/// Every gene of `g` descends from `genes`.
pub open spec fn all_descend(g: Seq<PendingGene>, genes: Seq<Connection>) -> bool {
    forall|i: int| 0 <= i < g.len() ==> descends(#[trigger] g[i], genes)
}

/// A gene's own errors keep its weight and at least one of its ends; a
/// rewiring moves only the other end.
pub proof fn lemma_gene_errors_inherit(s: (u64, u64, u64, u64), g: Connection, odds: MutationOdds)
    ensures
        inherits(gene_errors_at(s, g, odds).0, g),
{
}

/// The `k`-th gene after the per-gene errors is parent gene `k`, with its
/// weight and at least one of its ends.
pub proof fn lemma_genes_errors_inherit(
    s: (u64, u64, u64, u64),
    genes: Seq<Connection>,
    odds: MutationOdds,
    k: nat,
)
    requires
        k <= genes.len(),
    ensures
        genes_errors_at(s, genes, odds, k).0.len() == k,
        forall|i: int|
            0 <= i < k ==> inherits(#[trigger] genes_errors_at(s, genes, odds, k).0[i], genes[i]),
    decreases k,
{
    if k > 0 {
        lemma_genes_errors_inherit(s, genes, odds, (k - 1) as nat);
        let (done, s1) = genes_errors_at(s, genes, odds, (k - 1) as nat);
        lemma_gene_errors_inherit(s1, genes[k - 1], odds);
        let all = genes_errors_at(s, genes, odds, k).0;
        assert forall|i: int| 0 <= i < k implies inherits(#[trigger] all[i], genes[i]) by {
            if i < k - 1 {
                assert(all[i] == done[i]);
            }
        }
    }
}

/// A random gene is fresh: its weight is pending a fresh draw.
pub proof fn lemma_random_gene_is_fresh(s: (u64, u64, u64, u64))
    ensures
        random_gene_at(s).0.weight is Fresh,
        random_gene_at(s).0.gene.weight_bits == 0,
{
}

/// Every gene of a child's wiring is either a fresh random gene or a parent
/// gene that kept its weight and at least one of its ends: heredity never
/// invents a weight, and a rewiring moves one end only. The first genes,
/// before additions, removals and duplications, are the parent's genes in
/// order.
pub proof fn lemma_mutation_descends(
    s: (u64, u64, u64, u64),
    genes: Seq<Connection>,
    odds: MutationOdds,
    cap: nat,
)
    ensures
        all_descend(mutation_at(s, genes, odds, cap).0, genes),
        forall|i: int|
            0 <= i < genes.len() ==> inherits(
                #[trigger] genes_errors_at(s, genes, odds, genes.len()).0[i],
                genes[i],
            ),
{
    lemma_genes_errors_inherit(s, genes, odds, genes.len());
    let (g0, s1) = genes_errors_at(s, genes, odds, genes.len());
    assert(all_descend(g0, genes)) by {
        assert forall|i: int| 0 <= i < g0.len() implies descends(#[trigger] g0[i], genes) by {
            assert(inherits(g0[i], genes[i]));
        }
    }
    let (g1, s2) = addition_at(s1, g0, odds, cap);
    lemma_random_gene_is_fresh(xoshiro_step(s1));
    assert(all_descend(g1, genes)) by {
        assert forall|i: int| 0 <= i < g1.len() implies descends(#[trigger] g1[i], genes) by {
            if i < g0.len() {
                assert(g1[i] == g0[i]);
            }
        }
    }
    let (g2, s3) = removal_at(s2, g1, odds);
    assert(all_descend(g2, genes)) by {
        assert forall|i: int| 0 <= i < g2.len() implies descends(#[trigger] g2[i], genes) by {
            if bits24(s2) < odds.remove && g1.len() > 1 {
                let r = below_at(xoshiro_step(s2), g1.len() as int);
                if i < r {
                    assert(g2[i] == g1[i]);
                } else {
                    assert(g2[i] == g1[i + 1]);
                }
            } else {
                assert(g2[i] == g1[i]);
            }
        }
    }
    let out = duplication_at(s3, g2, odds, cap).0;
    assert forall|i: int| 0 <= i < out.len() implies descends(#[trigger] out[i], genes) by {
        if i < g2.len() {
            assert(out[i] == g2[i]);
        } else {
            let j = below_at(xoshiro_step(s3), g2.len() as int);
            assert(out[i] == g2[j]);
        }
    }
}

/// Every pending gene is wired within the neuron pools.
pub open spec fn all_wired_in_range(genes: Seq<PendingGene>) -> bool {
    forall|i: int| 0 <= i < genes.len() ==> wired_in_range(#[trigger] genes[i].gene)
}

/// A 24-bit draw, and whether it falls below `threshold`.
fn chance(rng: &mut Rng, threshold: u32) -> (r: bool)
    ensures
        r == (bits24(old(rng)@) < threshold),
        final(rng)@ == xoshiro_step(old(rng)@),
{
    rng.next_bits24() < threshold
}

/// A source neuron of the kind `from_hidden` names, drawn uniformly.
fn draw_source(rng: &mut Rng, from_hidden: bool) -> (r: u8)
    ensures
        r as int == below_at(
            old(rng)@,
            if from_hidden {
                N_HIDDEN as int
            } else {
                N_SENSES as int
            },
        ),
        r < (if from_hidden {
            N_HIDDEN
        } else {
            N_SENSES
        }),
        final(rng)@ == xoshiro_step(old(rng)@),
{
    let n = if from_hidden {
        N_HIDDEN
    } else {
        N_SENSES
    };
    rng.below(n) as u8
}

/// A sink neuron of the kind `to_output` names, drawn uniformly.
fn draw_sink(rng: &mut Rng, to_output: bool) -> (r: u8)
    ensures
        r as int == below_at(
            old(rng)@,
            if to_output {
                N_OUTPUTS as int
            } else {
                N_HIDDEN as int
            },
        ),
        r < (if to_output {
            N_OUTPUTS
        } else {
            N_HIDDEN
        }),
        final(rng)@ == xoshiro_step(old(rng)@),
{
    let n = if to_output {
        N_OUTPUTS
    } else {
        N_HIDDEN
    };
    rng.below(n) as u8
}

/// A random gene, biased toward direct sense→output wiring (what a
/// founder can use before hidden structure has evolved), with a fresh
/// weight pending.
pub fn random_gene(rng: &mut Rng) -> (g: PendingGene)
    ensures
        (g, final(rng)@) == random_gene_at(old(rng)@),
        wired_in_range(g.gene),
{
    let from_hidden = chance(rng, FROM_HIDDEN_ODDS);
    let to_output = chance(rng, TO_OUTPUT_ODDS);
    let from = draw_source(rng, from_hidden);
    let to = draw_sink(rng, to_output);
    let w = rng.next_bits24();
    PendingGene {
        gene: Connection { from_hidden, from, to_output, to, weight_bits: 0 },
        weight: WeightChange::Fresh { uniform24: w },
    }
}

/// Gene `g` with its per-gene errors.
fn gene_errors(rng: &mut Rng, g: Connection, odds: &MutationOdds) -> (p: PendingGene)
    ensures
        (p, final(rng)@) == gene_errors_at(old(rng)@, g, *odds),
        wired_in_range(g) ==> wired_in_range(p.gene),
{
    let change = if chance(rng, odds.weight) {
        let u53 = rng.next_bits53();
        let u24 = rng.next_bits24();
        WeightChange::Perturb { uniform53: u53, uniform24: u24 }
    } else {
        WeightChange::Keep
    };
    if !chance(rng, odds.rewire) {
        return PendingGene { gene: g, weight: change };
    }
    if chance(rng, HALF_ODDS) {
        let from_hidden = chance(rng, FROM_HIDDEN_ODDS);
        let from = draw_source(rng, from_hidden);
        PendingGene {
            gene: Connection {
                from_hidden,
                from,
                to_output: g.to_output,
                to: g.to,
                weight_bits: g.weight_bits,
            },
            weight: change,
        }
    } else {
        let to_output = chance(rng, TO_OUTPUT_ODDS);
        let to = draw_sink(rng, to_output);
        PendingGene {
            gene: Connection {
                from_hidden: g.from_hidden,
                from: g.from,
                to_output,
                to,
                weight_bits: g.weight_bits,
            },
            weight: change,
        }
    }
}

/// Every gene of `genes` with its per-gene errors, in order.
fn all_gene_errors(rng: &mut Rng, genes: &Vec<Connection>, odds: &MutationOdds) -> (out: Vec<
    PendingGene,
>)
    ensures
        (out@, final(rng)@) == genes_errors_at(old(rng)@, genes@, *odds, genes@.len()),
        out@.len() == genes@.len(),
        (forall|i: int| 0 <= i < genes@.len() ==> wired_in_range(#[trigger] genes@[i]))
            ==> all_wired_in_range(out@),
{
    let ghost s0 = rng@;
    let mut out: Vec<PendingGene> = Vec::new();
    let mut k: usize = 0;
    while k < genes.len()
        invariant
            k <= genes@.len(),
            out@.len() == k,
            (out@, rng@) == genes_errors_at(s0, genes@, *odds, k as nat),
            (forall|i: int| 0 <= i < genes@.len() ==> wired_in_range(#[trigger] genes@[i]))
                ==> all_wired_in_range(out@),
        decreases genes@.len() - k,
    {
        let p = gene_errors(rng, genes[k], odds);
        out.push(p);
        k = k + 1;
    }
    out
}

/// `addition_at`, carried out on `g`.
fn add_gene(rng: &mut Rng, g: &mut Vec<PendingGene>, odds: &MutationOdds, cap: usize)
    ensures
        (final(g)@, final(rng)@) == addition_at(old(rng)@, old(g)@, *odds, cap as nat),
        all_wired_in_range(old(g)@) ==> all_wired_in_range(final(g)@),
{
    if chance(rng, odds.add) && g.len() < cap {
        let fresh = random_gene(rng);
        g.push(fresh);
    }
}

/// `removal_at`, carried out on `g`.
fn remove_gene(rng: &mut Rng, g: &mut Vec<PendingGene>, odds: &MutationOdds)
    ensures
        (final(g)@, final(rng)@) == removal_at(old(rng)@, old(g)@, *odds),
        all_wired_in_range(old(g)@) ==> all_wired_in_range(final(g)@),
{
    if chance(rng, odds.remove) && g.len() > 1 {
        let i = rng.below(g.len());
        let ghost before = g@;
        g.remove(i);
        assert(all_wired_in_range(before) ==> all_wired_in_range(g@)) by {
            if all_wired_in_range(before) {
                assert forall|k: int| 0 <= k < g@.len() implies wired_in_range(#[trigger] g@[k].gene) by {
                    if k < i {
                        assert(g@[k] == before[k]);
                    } else {
                        assert(g@[k] == before[k + 1]);
                    }
                }
            }
        }
    }
}

/// `duplication_at`, carried out on `g`.
fn duplicate_gene(rng: &mut Rng, g: &mut Vec<PendingGene>, odds: &MutationOdds, cap: usize)
    ensures
        (final(g)@, final(rng)@) == duplication_at(old(rng)@, old(g)@, *odds, cap as nat),
        all_wired_in_range(old(g)@) ==> all_wired_in_range(final(g)@),
{
    if chance(rng, odds.duplicate) && g.len() > 0 && g.len() < cap {
        let j = rng.below(g.len());
        let copy = g[j];
        g.push(copy);
    }
}

/// A child's wiring: `genes` copied with inheritance errors, drawn from
/// `rng` in a fixed order (see `mutation_at`). The child never has more
/// than `cap` genes unless the parent had, never fewer than one if the
/// parent had one, and every gene is wired within the neuron pools if the
/// parent's were.
pub fn mutate_wiring(rng: &mut Rng, genes: &Vec<Connection>, odds: &MutationOdds, cap: usize) -> (out:
    Vec<PendingGene>)
    ensures
        (out@, final(rng)@) == mutation_at(old(rng)@, genes@, *odds, cap as nat),
        genes@.len() <= cap ==> out@.len() <= cap,
        genes@.len() >= 1 ==> out@.len() >= 1,
        genes@.len() - 1 <= out@.len() <= genes@.len() + 2,
        (forall|i: int| 0 <= i < genes@.len() ==> wired_in_range(#[trigger] genes@[i]))
            ==> all_wired_in_range(out@),
        all_descend(out@, genes@),
{
    proof {
        lemma_mutation_descends(rng@, genes@, *odds, cap as nat);
    }
    let mut out = all_gene_errors(rng, genes, odds);
    add_gene(rng, &mut out, odds, cap);
    remove_gene(rng, &mut out, odds);
    duplicate_gene(rng, &mut out, odds, cap);
    out
}

} // verus!
