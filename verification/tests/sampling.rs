use vivere::rng::Rng;
use vivere::sampling::{metrics_stream_seed, sample_indices, shuffled_order};

#[test]
fn eating_order_matches_fisher_yates() {
    let mut rng = Rng::from_seed(42);
    assert_eq!(shuffled_order(&mut rng, 5), vec![3, 2, 0, 4, 1]);
    assert_eq!(
        rng.to_raw().s,
        [0x6db07c7dd404690b, 0x81ddc5fe6c157698, 0x25cfe223490d9d1f, 0x9252543d113b0c36]
    );
}

#[test]
fn eating_order_is_a_permutation() {
    let mut rng = Rng::from_seed(1);
    for n in 0..50usize {
        let mut o = shuffled_order(&mut rng, n);
        o.sort_unstable();
        assert_eq!(o, (0..n as u32).collect::<Vec<u32>>());
    }
}

#[test]
fn tiny_orders_draw_nothing() {
    let mut rng = Rng::from_seed(5);
    let before = rng.to_raw();
    assert_eq!(shuffled_order(&mut rng, 0), Vec::<u32>::new());
    assert_eq!(shuffled_order(&mut rng, 1), vec![0]);
    assert_eq!(rng.to_raw(), before);
}

#[test]
fn sample_matches_partial_fisher_yates() {
    let mut rng = Rng::from_seed(7);
    assert_eq!(sample_indices(&mut rng, 10, 4), vec![1, 9, 4, 8]);
}

#[test]
fn sample_is_distinct_and_in_range() {
    let mut rng = Rng::from_seed(11);
    for n in 1..80usize {
        let k = n.min(60);
        let s = sample_indices(&mut rng, n, k);
        assert_eq!(s.len(), k);
        let mut t = s.clone();
        t.sort_unstable();
        t.dedup();
        assert_eq!(t.len(), k);
        assert!(s.iter().all(|&i| (i as usize) < n));
    }
}

#[test]
fn metrics_seed_mixes_seed_and_tick() {
    assert_eq!(metrics_stream_seed(42, 100), 0xf519f86ee2385bd6);
    assert_eq!(metrics_stream_seed(0, 7), 7);
}
