use vivere::rng::{RawRng, Rng};

#[test]
fn deterministic_stream() {
    let mut a = Rng::from_seed(42);
    let mut b = Rng::from_seed(42);
    for _ in 0..1000 {
        assert_eq!(a.next_u64(), b.next_u64());
    }
}

#[test]
fn uniform_bounds() {
    // The single-precision draw is the 24-bit integer times 2^-24.
    let mut rng = Rng::from_seed(3);
    for _ in 0..10_000 {
        let x = rng.next_bits24() as f32 * (1.0 / (1u64 << 24) as f32);
        assert!((0.0..1.0).contains(&x));
        let u = rng.next_bits24() as f32 * (1.0 / (1u64 << 24) as f32);
        let y = -2.0f32 + (3.0f32 - -2.0f32) * u;
        assert!((-2.0..3.0).contains(&y));
        assert!(rng.below(7) < 7);
    }
}

#[test]
fn seeding_matches_splitmix64() {
    let r = Rng::from_seed(0).to_raw();
    assert_eq!(
        r.s,
        [0xe220a8397b1dcdaf, 0x6e789e6aa1b965f4, 0x06c45d188009454f, 0xf88bb8a8724c81ec]
    );
    let r = Rng::from_seed(42).to_raw();
    assert_eq!(
        r.s,
        [0xbdd732262feb6e95, 0x28efe333b266f103, 0x47526757130f9f52, 0x581ce1ff0e4ae394]
    );
}

#[test]
fn stream_matches_xoshiro256plusplus() {
    let mut r = Rng::from_seed(0);
    assert_eq!(r.next_u64(), 0x53175d61490b23df);
    assert_eq!(r.next_u64(), 0x61da6f3dc380d507);
    assert_eq!(r.next_u64(), 0x5c0fdf91ec9a7bfc);
    let mut r = Rng::from_seed(42);
    assert_eq!(r.next_u64(), 0xd0764d4f4476689f);
    assert_eq!(r.next_u64(), 0x519e4174576f3791);
    assert_eq!(r.next_u64(), 0xfbe07cfb0c24ed8c);
}

#[test]
fn below_and_bit_draws_take_from_the_stream() {
    let mut r = Rng::from_seed(42);
    assert_eq!(r.below(7), 3);
    assert_eq!(r.next_bits24(), 5348929);
    assert_eq!(r.next_bits53(), 8862130818352285);
}

#[test]
fn restored_state_continues_the_stream() {
    let mut a = Rng::from_seed(9);
    for _ in 0..17 {
        a.next_u64();
    }
    let raw = a.to_raw();
    let mut b = Rng::from_raw(&RawRng { s: raw.s });
    for _ in 0..100 {
        assert_eq!(a.next_u64(), b.next_u64());
    }
}

#[test]
fn different_seeds_different_streams() {
    let mut a = Rng::from_seed(42);
    let mut b = Rng::from_seed(43);
    assert_ne!(a.next_u64(), b.next_u64());
}
