use vivere::genome::{Connection, N_HIDDEN, N_OUTPUTS, N_SENSES};
use vivere::heredity::{
    mutate_wiring, random_gene, MutationOdds, PendingGene, WeightChange, FROM_HIDDEN_ODDS,
    HALF_ODDS, TO_OUTPUT_ODDS,
};
use vivere::rng::Rng;

fn unit(b: u32) -> f32 {
    b as f32 * (1.0 / (1u64 << 24) as f32)
}

/// `b` passes the float chance `p` exactly when it is below the threshold.
fn threshold_decides(p: f32, threshold: u32) -> bool {
    unit(threshold - 1) < p && !(unit(threshold) < p)
}

#[test]
fn fixed_thresholds_decide_their_float_chances() {
    assert!(threshold_decides(0.2, FROM_HIDDEN_ODDS));
    assert!(threshold_decides(0.7, TO_OUTPUT_ODDS));
    assert!(threshold_decides(0.5, HALF_ODDS));
}

/// The float-chance formulation of a founder gene, draw for draw.
fn random_gene_by_floats(rng: &mut Rng) -> (Connection, u32) {
    let from_hidden = unit(rng.next_bits24()) < 0.2;
    let to_output = unit(rng.next_bits24()) < 0.7;
    let from = rng.below(if from_hidden { N_HIDDEN } else { N_SENSES }) as u8;
    let to = rng.below(if to_output { N_OUTPUTS } else { N_HIDDEN }) as u8;
    let w = rng.next_bits24();
    (Connection { from_hidden, from, to_output, to, weight_bits: 0 }, w)
}

#[test]
fn random_genes_follow_the_float_chances_and_stay_in_range() {
    let mut a = Rng::from_seed(11);
    let mut b = Rng::from_seed(11);
    for _ in 0..2000 {
        let g = random_gene(&mut a);
        let (c, w) = random_gene_by_floats(&mut b);
        assert_eq!(g, PendingGene { gene: c, weight: WeightChange::Fresh { uniform24: w } });
        assert!(g.gene.is_wired_in_range());
    }
    assert_eq!(a.next_u64(), b.next_u64());
}

fn odds_for(p: f32) -> u32 {
    if p > 0.0 {
        (p * (1u64 << 24) as f32).ceil().min((1u64 << 24) as f32) as u32
    } else {
        0
    }
}

/// The float-chance formulation of the wiring mutation, draw for draw.
fn mutate_by_floats(
    rng: &mut Rng,
    genes: &[Connection],
    p: (f32, f32, f32, f32, f32),
    cap: usize,
) -> Vec<PendingGene> {
    let chance = |rng: &mut Rng, q: f32| unit(rng.next_bits24()) < q;
    let mut out = Vec::new();
    for &g in genes {
        let mut c = g;
        let weight = if chance(rng, p.0) {
            let u53 = rng.next_bits53();
            let u24 = rng.next_bits24();
            WeightChange::Perturb { uniform53: u53, uniform24: u24 }
        } else {
            WeightChange::Keep
        };
        if chance(rng, p.1) {
            if chance(rng, 0.5) {
                c.from_hidden = chance(rng, 0.2);
                c.from = rng.below(if c.from_hidden { N_HIDDEN } else { N_SENSES }) as u8;
            } else {
                c.to_output = chance(rng, 0.7);
                c.to = rng.below(if c.to_output { N_OUTPUTS } else { N_HIDDEN }) as u8;
            }
        }
        out.push(PendingGene { gene: c, weight });
    }
    if chance(rng, p.2) && out.len() < cap {
        let (c, w) = random_gene_by_floats(rng);
        out.push(PendingGene { gene: c, weight: WeightChange::Fresh { uniform24: w } });
    }
    if chance(rng, p.3) && out.len() > 1 {
        let i = rng.below(out.len());
        out.remove(i);
    }
    if chance(rng, p.4) && !out.is_empty() && out.len() < cap {
        let i = rng.below(out.len());
        let c = out[i];
        out.push(c);
    }
    out
}

#[test]
fn mutation_respects_wiring_ranges_and_the_cap() {
    let p = (0.3f32, 0.2f32, 0.4f32, 0.35f32, 0.3f32);
    let odds = MutationOdds {
        weight: odds_for(p.0),
        rewire: odds_for(p.1),
        add: odds_for(p.2),
        remove: odds_for(p.3),
        duplicate: odds_for(p.4),
    };
    let cap = 12;
    let mut rng = Rng::from_seed(9);
    let mut reference = Rng::from_seed(9);
    let mut genes: Vec<Connection> = vec![random_gene(&mut Rng::from_seed(1)).gene];
    reference.next_u64();
    rng.next_u64();
    for _ in 0..2000 {
        let out = mutate_wiring(&mut rng, &genes, &odds, cap);
        let expected = mutate_by_floats(&mut reference, &genes, p, cap);
        assert_eq!(out, expected);
        assert!(!out.is_empty());
        assert!(out.len() <= cap);
        assert!(out.iter().all(|g| g.gene.is_wired_in_range()));
        genes = out.into_iter().map(|g| g.gene).collect();
    }
    assert_eq!(rng.next_u64(), reference.next_u64());
}

#[test]
fn a_certain_duplication_copies_a_gene_and_its_pending_weight() {
    let odds = MutationOdds { weight: 1 << 24, rewire: 0, add: 0, remove: 0, duplicate: 1 << 24 };
    let gene = Connection { from_hidden: false, from: 3, to_output: true, to: 1, weight_bits: 7 };
    let mut rng = Rng::from_seed(2);
    let out = mutate_wiring(&mut rng, &vec![gene], &odds, 4);
    assert_eq!(out.len(), 2);
    assert_eq!(out[0], out[1]);
    assert_eq!(out[0].gene, gene);
    assert!(matches!(out[0].weight, WeightChange::Perturb { .. }));
    // At the cap nothing is added or duplicated.
    let full = mutate_wiring(&mut Rng::from_seed(2), &vec![gene; 4], &odds, 4);
    assert_eq!(full.len(), 4);
}
