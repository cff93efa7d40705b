use vivere::grid::Grid;
use vivere::rng::Rng;

fn unit(rng: &mut Rng) -> f32 {
    rng.next_bits24() as f32 * (1.0 / (1u64 << 24) as f32)
}

fn range_f32(rng: &mut Rng, lo: f32, hi: f32) -> f32 {
    lo + (hi - lo) * unit(rng)
}

fn wrap_delta(a: f32, b: f32, extent: f32) -> f32 {
    let mut d = b - a;
    if d > extent * 0.5 {
        d -= extent;
    } else if d < -extent * 0.5 {
        d += extent;
    }
    d
}

#[test]
fn grid_finds_everything_a_naive_scan_finds() {
    let (w, h, r) = (400.0f32, 300.0f32, 64.0f32);
    let mut rng = Rng::from_seed(5);
    let pts: Vec<(f32, f32)> = (0..300)
        .map(|_| (range_f32(&mut rng, 0.0, w), range_f32(&mut rng, 0.0, h)))
        .collect();
    let mut grid = Grid::new();
    grid.reset((w / r) as usize, (h / r) as usize);
    let cell_w = w / grid.nx() as f32;
    let cell_h = h / grid.ny() as f32;
    for (i, &(x, y)) in pts.iter().enumerate() {
        grid.insert((x / cell_w) as isize, (y / cell_h) as isize, i as u32);
    }
    for _ in 0..200 {
        let (qx, qy) = (range_f32(&mut rng, 0.0, w), range_f32(&mut rng, 0.0, h));
        let mut from_grid: Vec<u32> = grid
            .neighbors((qx / cell_w) as isize, (qy / cell_h) as isize)
            .into_iter()
            .filter(|&i| {
                let (px, py) = pts[i as usize];
                let (dx, dy) = (wrap_delta(qx, px, w), wrap_delta(qy, py, h));
                dx * dx + dy * dy <= r * r
            })
            .collect();
        let mut naive: Vec<u32> = (0..pts.len() as u32)
            .filter(|&i| {
                let (px, py) = pts[i as usize];
                let (dx, dy) = (wrap_delta(qx, px, w), wrap_delta(qy, py, h));
                dx * dx + dy * dy <= r * r
            })
            .collect();
        from_grid.sort_unstable();
        naive.sort_unstable();
        assert_eq!(from_grid, naive);
    }
}

#[test]
fn reset_clamps_the_shape() {
    let mut g = Grid::new();
    assert_eq!((g.nx(), g.ny()), (0, 0));
    g.reset(1, 5000);
    assert_eq!((g.nx(), g.ny()), (3, 1024));
    g.reset(10, 7);
    assert_eq!((g.nx(), g.ny()), (10, 7));
}

#[test]
fn cell_clamps_onto_the_grid() {
    let mut g = Grid::new();
    g.reset(4, 3);
    assert_eq!(g.cell(-5, -1), (0, 0));
    assert_eq!(g.cell(2, 1), (2, 1));
    assert_eq!(g.cell(99, 99), (3, 2));
}

#[test]
fn neighbors_visit_the_wrapped_3x3_in_order() {
    let mut g = Grid::new();
    g.reset(4, 3);
    // One entry per cell, numbered by flat index.
    for y in 0..3isize {
        for x in 0..4isize {
            g.insert(x, y, (y * 4 + x) as u32);
        }
    }
    // Around the corner cell (0, 0): rows 2, 0, 1 and columns 3, 0, 1.
    assert_eq!(g.neighbors(0, 0), vec![11, 8, 9, 3, 0, 1, 7, 4, 5]);
    // Cell (3, 1) is clamped from (7, 1).
    assert_eq!(g.neighbors(7, 1), vec![2, 3, 0, 6, 7, 4, 10, 11, 8]);
}

#[test]
fn buckets_keep_insertion_order_and_reset_empties_them() {
    let mut g = Grid::new();
    g.reset(3, 3);
    g.insert(1, 1, 7);
    g.insert(1, 1, 2);
    g.insert(1, 1, 5);
    assert_eq!(g.neighbors(1, 1), vec![7, 2, 5]);
    g.reset(3, 3);
    assert!(g.neighbors(1, 1).is_empty());
}

#[test]
fn rebuild_files_every_entity_in_its_own_cell() {
    let qs: Vec<(isize, isize)> = vec![(0, 0), (5, 1), (-2, 2), (1, 1), (0, 0), (3, 9)];
    let mut rebuilt = Grid::new();
    rebuilt.rebuild(4, 3, &qs);
    assert_eq!((rebuilt.nx(), rebuilt.ny()), (4, 3));
    let mut by_hand = Grid::new();
    by_hand.reset(4, 3);
    for (i, &(qx, qy)) in qs.iter().enumerate() {
        by_hand.insert(qx, qy, i as u32);
    }
    for y in 0..3isize {
        for x in 0..4isize {
            assert_eq!(rebuilt.neighbors(x, y), by_hand.neighbors(x, y));
        }
    }
    // Entities 0 and 4 share cell (0, 0), kept in index order; entity 1 is
    // clamped onto (3, 1) and entity 5 onto (3, 2).
    assert_eq!(rebuilt.neighbors(0, 0), vec![5, 2, 0, 4, 1, 3]);
    // Rebuilding again replaces the old contents.
    rebuilt.rebuild(4, 3, &vec![(2, 2)]);
    assert!(rebuilt.neighbors(0, 0).is_empty());
    assert_eq!(rebuilt.neighbors(2, 2), vec![0]);
}
