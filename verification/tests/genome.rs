use vivere::census::{bar, census, classify_genes, degrees, edge_stats, hidden_alive, hist_bucket};
use vivere::genome::{match_wiring, sorted_connections, Connection};

fn conn(from_hidden: bool, from: u8, to_output: bool, to: u8, w: f32) -> Connection {
    Connection { from_hidden, from, to_output, to, weight_bits: w.to_bits() }
}

#[test]
fn sorting_orders_by_wiring_then_weight() {
    let v = vec![
        conn(true, 0, true, 1, 0.5),
        conn(false, 3, true, 0, 1.0),
        conn(false, 3, true, 0, -1.0),
        conn(false, 3, false, 2, 2.0),
        conn(false, 3, true, 0, 0.0),
        conn(false, 3, true, 0, -0.0),
        conn(false, 1, true, 2, 3.0),
    ];
    let s = sorted_connections(&v);
    let got: Vec<(bool, u8, bool, u8, u32)> = s
        .iter()
        .map(|c| (c.from_hidden, c.from, c.to_output, c.to, c.weight_bits))
        .collect();
    assert_eq!(
        got,
        vec![
            (false, 1, true, 2, 3.0f32.to_bits()),
            (false, 3, false, 2, 2.0f32.to_bits()),
            (false, 3, true, 0, (-1.0f32).to_bits()),
            (false, 3, true, 0, (-0.0f32).to_bits()),
            (false, 3, true, 0, 0.0f32.to_bits()),
            (false, 3, true, 0, 1.0f32.to_bits()),
            (true, 0, true, 1, 0.5f32.to_bits()),
        ]
    );
}

#[test]
fn sort_key_is_the_wiring() {
    assert_eq!(conn(true, 4, false, 9, 1.5).sort_key(), (true, 4, false, 9));
}

#[test]
fn identical_genomes_match_completely() {
    let v = sorted_connections(&vec![
        conn(false, 1, true, 0, 0.5),
        conn(false, 1, true, 0, 0.7),
        conn(true, 2, false, 3, -1.0),
    ]);
    let m = match_wiring(&v, &v);
    assert_eq!(m.pairs, vec![(0, 0), (1, 1), (2, 2)]);
    assert_eq!(m.unmatched, 0);
}

#[test]
fn matching_counts_unmatched_wiring_on_both_sides() {
    let a = sorted_connections(&vec![
        conn(false, 1, true, 0, 0.5),
        conn(false, 2, true, 0, 0.5),
        conn(true, 0, true, 1, 0.5),
    ]);
    let b = sorted_connections(&vec![
        conn(false, 2, true, 0, -0.5),
        conn(false, 5, true, 1, 0.5),
        conn(true, 0, true, 1, 0.25),
        conn(true, 3, true, 1, 0.25),
    ]);
    let m = match_wiring(&a, &b);
    assert_eq!(m.pairs, vec![(1, 0), (2, 2)]);
    assert_eq!(m.unmatched, 3);
    let r = match_wiring(&b, &a);
    assert_eq!(r.pairs, vec![(0, 1), (2, 2)]);
    assert_eq!(r.unmatched, 3);
}

#[test]
fn histogram_buckets() {
    let cases = [
        (0, 0),
        (7, 0),
        (8, 1),
        (15, 1),
        (16, 2),
        (63, 3),
        (64, 4),
        (255, 5),
        (511, 6),
        (1023, 7),
        (1024, 8),
        (100000, 8),
    ];
    for (n, b) in cases {
        assert_eq!(hist_bucket(n), b);
    }
}

#[test]
fn hidden_neurons_alive_need_input_and_output() {
    let g = vec![
        conn(false, 0, false, 2, 1.0), // feeds h2
        conn(true, 2, true, 0, 1.0),   // reads h2
        conn(false, 1, false, 5, 1.0), // feeds h5, never read
        conn(true, 7, true, 1, 1.0),   // reads h7, never fed
    ];
    assert_eq!(hidden_alive(&g), 1);
    let d = degrees(&g);
    assert_eq!(d.in_deg[2], 1);
    assert_eq!(d.out_deg[2], 1);
    assert_eq!(d.in_deg[5], 1);
    assert_eq!(d.out_deg[7], 1);
}

#[test]
fn genes_classify_as_weak_dead_or_live() {
    let g = vec![
        conn(false, 0, true, 0, 0.009),     // weak
        conn(false, 0, true, 0, -0.005),    // weak
        conn(false, 2, true, 1, 0.01),      // live (not below the threshold)
        conn(false, 1, false, 5, 1.0),      // dead: h5 never read
        conn(true, 7, true, 1, 1.0),        // dead: h7 never fed
        conn(false, 3, true, 2, f32::NAN),  // live: NaN is not below anything
    ];
    let c = classify_genes(&g);
    assert_eq!((c.weak, c.dead, c.live), (2, 2, 2));
    assert_eq!(c.sense_genes[2], 1);
    assert_eq!(c.sense_genes[3], 1);
    assert_eq!(c.sense_genes[0], 0);
    assert_eq!(c.output_genes, vec![0, 1, 1]);
}

#[test]
fn stacked_edges_count_duplicate_wiring() {
    let g = vec![
        conn(false, 0, true, 0, 1.0),
        conn(false, 0, true, 0, 2.0),
        conn(false, 0, true, 0, 3.0),
        conn(false, 1, true, 0, 1.0),
        conn(false, 1, true, 1, 1.0),
        conn(false, 1, true, 1, 1.0),
    ];
    let e = edge_stats(&g);
    assert_eq!(e.distinct, 3);
    assert_eq!(e.stacked, 2);
}

#[test]
fn census_tallies_a_population() {
    let pop = vec![
        vec![
            conn(false, 0, false, 2, 1.0),
            conn(true, 2, true, 0, 1.0),
            conn(true, 2, true, 0, 1.0),
        ],
        vec![],
        (0..20).map(|i| conn(false, (i % 12) as u8, true, 1, 0.001)).collect(),
    ];
    let c = census(&pop);
    assert_eq!(c.organisms, 3);
    assert_eq!(c.genes, 23);
    assert_eq!(c.weak, 20);
    assert_eq!(c.dead, 0);
    assert_eq!(c.live, 3);
    assert_eq!(c.distinct_edges, 2 + 12);
    assert_eq!(c.dup_extras, 1 + 8);
    assert_eq!(c.stacked_edges, 1 + 8);
    assert_eq!((c.len_min, c.len_max), (0, 20));
    assert_eq!(c.len_hist, vec![2, 0, 1, 0, 0, 0, 0, 0, 0]);
    assert_eq!(c.hidden_alive_total, 1);
    assert_eq!(c.hidden_alive_by_neuron[2], 1);
    assert_eq!(c.sense_genes[0], 1);
    assert_eq!(c.sense_users[0], 1);
    assert_eq!(c.output_genes, vec![2, 0, 0]);
    assert_eq!(c.output_users, vec![1, 0, 0]);
}

#[test]
fn census_of_nobody_is_empty() {
    let c = census(&Vec::new());
    assert_eq!(c.organisms, 0);
    assert_eq!((c.len_min, c.len_max), (0, 0));
    assert_eq!(c.genes, 0);
}

#[test]
fn every_gene_is_weak_dead_or_live() {
    let g = vec![
        conn(false, 0, true, 0, 0.001),
        conn(true, 3, false, 4, 1.0),
        conn(false, 1, false, 3, -2.0),
        conn(true, 4, true, 2, 0.5),
        conn(false, 2, true, 1, 1.5),
    ];
    let c = classify_genes(&g);
    assert_eq!(c.weak + c.dead + c.live, g.len());
    // h3 is fed (by gene 3) and read (by gene 2); h4 is fed by gene 2 and read by gene 4.
    assert_eq!((c.weak, c.dead, c.live), (1, 0, 4));
    assert_eq!(hidden_alive(&g), 2);
}

#[test]
fn matching_accounts_for_every_gene() {
    let a = sorted_connections(&vec![
        conn(false, 1, true, 0, 0.5),
        conn(false, 1, true, 0, 0.6),
        conn(false, 4, true, 2, 0.5),
    ]);
    let b = sorted_connections(&vec![
        conn(false, 1, true, 0, 0.1),
        conn(false, 3, true, 2, 0.5),
    ]);
    let m = match_wiring(&a, &b);
    assert_eq!(2 * m.pairs.len() + m.unmatched, a.len() + b.len());
    assert_eq!(m.pairs, vec![(0, 0)]);
}

#[test]
fn sorting_is_independent_of_input_order() {
    let mut v = vec![
        conn(true, 3, true, 1, -0.25),
        conn(false, 0, false, 7, 2.0),
        conn(false, 0, false, 7, -2.0),
        conn(true, 3, true, 1, 0.25),
        conn(false, 11, true, 0, 0.0),
    ];
    let first = sorted_connections(&v);
    v.reverse();
    assert_eq!(sorted_connections(&v), first);
    v.swap(0, 3);
    assert_eq!(sorted_connections(&v), first);
}

#[test]
fn wiring_range_check() {
    assert!(conn(false, 11, true, 2, 0.0).is_wired_in_range());
    assert!(!conn(false, 12, true, 0, 0.0).is_wired_in_range());
    assert!(!conn(true, 16, true, 0, 0.0).is_wired_in_range());
    assert!(!conn(false, 0, true, 3, 0.0).is_wired_in_range());
    assert!(conn(true, 15, false, 15, 0.0).is_wired_in_range());
    assert!(!conn(true, 0, false, 16, 0.0).is_wired_in_range());
}

#[test]
fn bar_is_a_rounded_share_of_forty() {
    assert_eq!(bar(10, 10), "#".repeat(40));
    assert_eq!(bar(5, 7), "#".repeat(29)); // 28.57…
    assert_eq!(bar(1, 16), "###"); // 2.5 rounds up
    assert_eq!(bar(3, 80), "##"); // 1.5 rounds up
    assert_eq!(bar(1, 80), "#"); // 0.5 rounds up
    assert_eq!(bar(1, 81), "#"); // rounds to 0, drawn as 1
    assert_eq!(bar(0, 0), "#");
    assert_eq!(bar(1, 0), "#".repeat(40)); // a zero total counts as one
}

#[test]
fn weights_at_the_clamp_are_those_above_three_point_nine() {
    let ws = [
        3.9f32,
        -3.9,
        4.0,
        -4.0,
        f32::from_bits(0x4079_999B),  // the next float above 3.9
        -f32::from_bits(0x4079_999B),
        f32::from_bits(0x4079_9999),  // the next float below 3.9
        0.0,
        -0.0,
        f32::INFINITY,
        f32::NEG_INFINITY,
        f32::NAN,
        -f32::NAN,
        1e30,
    ];
    let genome: Vec<Connection> = ws.iter().map(|&w| conn(false, 0, true, 0, w)).collect();
    let expected = ws.iter().filter(|w| w.abs() > 3.9).count();
    assert_eq!(expected, 7);
    assert_eq!(classify_genes(&genome).at_clamp, expected);
    assert_eq!(census(&vec![genome.clone(), genome]).weights_at_clamp, 2 * expected as u64);
}
