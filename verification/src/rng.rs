//! vivere owns its random generator. Determinism is a core promise, so the
//! generator's exact behaviour is fixed here, and its full state can be read
//! out and restored for snapshots.
//!
//! The generator is xoshiro256++, seeded through splitmix64.

use vstd::arithmetic::div_mod::{lemma_mod_multiples_vanish, lemma_mul_mod_noop_left, lemma_small_mod};
use vstd::prelude::*;

verus! {

/// The splitmix64 increment (the golden ratio in 64-bit fixed point).
pub const SPLITMIX_GAMMA: u64 = 0x9E37_79B9_7F4A_7C15;

pub const SPLITMIX_MUL_A: u64 = 0xBF58_476D_1CE4_E5B9;

pub const SPLITMIX_MUL_B: u64 = 0x94D0_49BB_1331_11EB;

/// Addition modulo 2^64.
pub open spec fn wrap_add(a: u64, b: u64) -> u64 {
    ((a + b) % 0x1_0000_0000_0000_0000) as u64
}

/// Multiplication modulo 2^64.
pub open spec fn wrap_mul(a: u64, b: u64) -> u64 {
    ((a as nat * b as nat) % 0x1_0000_0000_0000_0000) as u64
}

/// Left rotation of a 64-bit word by `k` places, `0 < k < 64`.
pub open spec fn rotl(x: u64, k: u64) -> u64 {
    (x << k) | (x >> ((64 - k) as u64))
}

/// The splitmix64 output function applied to one counter value.
pub open spec fn splitmix_mix(x: u64) -> u64 {
    let z1 = wrap_mul(x ^ (x >> 30u64), SPLITMIX_MUL_A);
    let z2 = wrap_mul(z1 ^ (z1 >> 27u64), SPLITMIX_MUL_B);
    z2 ^ (z2 >> 31u64)
}

/// The splitmix64 counter after `k` increments from `seed`.
pub open spec fn splitmix_counter(seed: u64, k: nat) -> u64
    decreases k,
{
    if k == 0 {
        seed
    } else {
        wrap_add(splitmix_counter(seed, (k - 1) as nat), SPLITMIX_GAMMA)
    }
}

/// The generator state that `from_seed(seed)` produces: the first four
/// splitmix64 outputs of `seed`.
pub open spec fn seeded_state(seed: u64) -> (u64, u64, u64, u64) {
    (
        splitmix_mix(splitmix_counter(seed, 1)),
        splitmix_mix(splitmix_counter(seed, 2)),
        splitmix_mix(splitmix_counter(seed, 3)),
        splitmix_mix(splitmix_counter(seed, 4)),
    )
}

/// Multiplying by an odd constant `a` modulo 2^64 loses nothing: `inv` is
/// its inverse, `a · inv = 1 + k · 2^64`.
proof fn lemma_wrap_mul_injective(x: u64, y: u64, a: u64, inv: u64, k: int)
    requires
        a as int * inv as int == 1 + k * 0x1_0000_0000_0000_0000,
        wrap_mul(x, a) == wrap_mul(y, a),
    ensures
        x == y,
{
    let m: int = 0x1_0000_0000_0000_0000;
    assert forall|v: u64| #[trigger] ((wrap_mul(v, a) as int * inv as int) % m) == v as int by {
        let p = v as int * a as int;
        assert(wrap_mul(v, a) as int == p % m);
        lemma_mul_mod_noop_left(p, inv as int, m);
        assert(p * inv as int == v as int + m * (v as int * k)) by (nonlinear_arith)
            requires
                p == v as int * a as int,
                a as int * inv as int == 1 + k * m,
        ;
        lemma_mod_multiples_vanish(v as int * k, v as int, m);
        lemma_small_mod(v as nat, m as nat);
    }
    assert((wrap_mul(x, a) as int * inv as int) % m == x as int);
    assert((wrap_mul(y, a) as int * inv as int) % m == y as int);
}

/// The splitmix64 output function is one-to-one.
pub proof fn lemma_splitmix_mix_injective(x: u64, y: u64)
    requires
        splitmix_mix(x) == splitmix_mix(y),
    ensures
        x == y,
{
    let (xa, ya) = (x ^ (x >> 30u64), y ^ (y >> 30u64));
    let (x1, y1) = (wrap_mul(xa, SPLITMIX_MUL_A), wrap_mul(ya, SPLITMIX_MUL_A));
    let (xb, yb) = (x1 ^ (x1 >> 27u64), y1 ^ (y1 >> 27u64));
    let (x2, y2) = (wrap_mul(xb, SPLITMIX_MUL_B), wrap_mul(yb, SPLITMIX_MUL_B));
    assert(x2 ^ (x2 >> 31u64) == y2 ^ (y2 >> 31u64) ==> x2 == y2) by (bit_vector);
    lemma_wrap_mul_injective(xb, yb, SPLITMIX_MUL_B, 0x3196_42b2_d24d_8ec3, 2077064247507883091);
    assert(xb == x1 ^ (x1 >> 27u64) && yb == y1 ^ (y1 >> 27u64) && xb == yb ==> x1 == y1)
        by (bit_vector);
    lemma_wrap_mul_injective(xa, ya, SPLITMIX_MUL_A, 0x96de_1b17_3f11_9089, 8125545580553827436);
    assert(xa == x ^ (x >> 30u64) && ya == y ^ (y >> 30u64) && xa == ya ==> x == y)
        by (bit_vector);
}

/// Addition modulo 2^64 either stays below 2^64 or wraps once.
proof fn lemma_wrap_add_cases(a: u64, b: u64)
    ensures
        wrap_add(a, b) as int == if a + b < 0x1_0000_0000_0000_0000 {
            a + b
        } else {
            a + b - 0x1_0000_0000_0000_0000
        },
{
    let m: int = 0x1_0000_0000_0000_0000;
    if a + b < m {
        lemma_small_mod((a + b) as nat, m as nat);
    } else {
        lemma_mod_multiples_vanish(1, a + b - m, m);
        lemma_small_mod((a + b - m) as nat, m as nat);
    }
}

/// Seeding is one-to-one: distinct seeds give distinct generator states.
pub proof fn lemma_seeding_injective(a: u64, b: u64)
    ensures
        a != b ==> seeded_state(a) != seeded_state(b),
{
    let (ca, cb) = (splitmix_counter(a, 1), splitmix_counter(b, 1));
    reveal_with_fuel(splitmix_counter, 2);
    assert(ca == wrap_add(a, SPLITMIX_GAMMA) && cb == wrap_add(b, SPLITMIX_GAMMA));
    lemma_wrap_add_cases(a, SPLITMIX_GAMMA);
    lemma_wrap_add_cases(b, SPLITMIX_GAMMA);
    assert(seeded_state(a).0 == splitmix_mix(ca) && seeded_state(b).0 == splitmix_mix(cb));
    if splitmix_mix(ca) == splitmix_mix(cb) {
        lemma_splitmix_mix_injective(ca, cb);
    }
}

/// The xoshiro256++ output for state `s`.
pub open spec fn xoshiro_output(s: (u64, u64, u64, u64)) -> u64 {
    wrap_add(rotl(wrap_add(s.0, s.3), 23), s.0)
}

/// The xoshiro256++ state that follows `s`.
pub open spec fn xoshiro_step(s: (u64, u64, u64, u64)) -> (u64, u64, u64, u64) {
    let t = s.1 << 17u64;
    let s2 = s.2 ^ s.0;
    let s3 = s.3 ^ s.1;
    let s1 = s.1 ^ s2;
    let s0 = s.0 ^ s3;
    (s0, s1, s2 ^ t, rotl(s3, 45))
}

/// The state after `n` draws from `s`.
pub open spec fn advance(s: (u64, u64, u64, u64), n: nat) -> (u64, u64, u64, u64)
    decreases n,
{
    if n == 0 {
        s
    } else {
        advance(xoshiro_step(s), (n - 1) as nat)
    }
}

/// The first `n` values drawn from state `s`.
pub open spec fn stream(s: (u64, u64, u64, u64), n: nat) -> Seq<u64>
    decreases n,
{
    if n == 0 {
        Seq::empty()
    } else {
        seq![xoshiro_output(s)] + stream(xoshiro_step(s), (n - 1) as nat)
    }
}

/// The four state words, in snapshot order.
pub open spec fn raw_words(s: (u64, u64, u64, u64)) -> Seq<u64> {
    seq![s.0, s.1, s.2, s.3]
}

/// The state held by four snapshot words.
pub open spec fn state_of_words(w: Seq<u64>) -> (u64, u64, u64, u64) {
    (w[0], w[1], w[2], w[3])
}

/// Drawing `a + b` values is drawing `a`, then drawing `b` from where those
/// left off: a generator restored from a mid-run state continues the
/// original stream exactly.
pub proof fn lemma_stream_split(s: (u64, u64, u64, u64), a: nat, b: nat)
    ensures
        stream(s, a + b) == stream(s, a) + stream(advance(s, a), b),
    decreases a,
{
    if a > 0 {
        lemma_stream_split(xoshiro_step(s), (a - 1) as nat, b);
        assert(stream(s, a + b) =~= stream(s, a) + stream(advance(s, a), b));
    } else {
        assert(stream(s, b) =~= Seq::<u64>::empty() + stream(s, b));
    }
}

/// The `k`-th draw of a stream is the output of the state reached after `k`
/// steps.
pub proof fn lemma_stream_index(s: (u64, u64, u64, u64), n: nat, k: nat)
    requires
        k < n,
    ensures
        stream(s, n).len() == n,
        stream(s, n)[k as int] == xoshiro_output(advance(s, k)),
    decreases k,
{
    lemma_stream_len(s, n);
    if k > 0 {
        lemma_stream_index(xoshiro_step(s), (n - 1) as nat, (k - 1) as nat);
    }
}

/// A stream of `n` draws has `n` values.
pub proof fn lemma_stream_len(s: (u64, u64, u64, u64), n: nat)
    ensures
        stream(s, n).len() == n,
    decreases n,
{
    if n > 0 {
        lemma_stream_len(xoshiro_step(s), (n - 1) as nat);
    }
}

/// Writing a state out as snapshot words and reading it back gives the same
/// state.
pub proof fn lemma_raw_round_trip(s: (u64, u64, u64, u64))
    ensures
        state_of_words(raw_words(s)) == s,
{
}

/// The raw state of a generator, as snapshots store it.
#[derive(Clone, Copy, Debug, PartialEq, Eq)]
pub struct RawRng {
    pub s: [u64; 4],
}

/// xoshiro256++ seeded via splitmix64.
#[derive(Clone, Debug, PartialEq, Eq)]
pub struct Rng {
    s0: u64,
    s1: u64,
    s2: u64,
    s3: u64,
}

impl View for Rng {
    type V = (u64, u64, u64, u64);

    open spec fn view(&self) -> (u64, u64, u64, u64) {
        self.spec_state()
    }
}

fn add_wrapping(a: u64, b: u64) -> (r: u64)
    ensures
        r == wrap_add(a, b),
{
    a.wrapping_add(b)
}

fn mul_wrapping(a: u64, b: u64) -> (r: u64)
    ensures
        r == wrap_mul(a, b),
{
    a.wrapping_mul(b)
}

fn rotate_left(x: u64, k: u64) -> (r: u64)
    requires
        0 < k < 64,
    ensures
        r == rotl(x, k),
{
    (x << k) | (x >> (64 - k))
}

fn splitmix_next(x: u64) -> (r: (u64, u64))
    ensures
        r.0 == wrap_add(x, SPLITMIX_GAMMA),
        r.1 == splitmix_mix(wrap_add(x, SPLITMIX_GAMMA)),
{
    let x = add_wrapping(x, SPLITMIX_GAMMA);
    let z = mul_wrapping(x ^ (x >> 30), SPLITMIX_MUL_A);
    let z = mul_wrapping(z ^ (z >> 27), SPLITMIX_MUL_B);
    (x, z ^ (z >> 31))
}

impl Rng {
    pub closed spec fn spec_state(&self) -> (u64, u64, u64, u64) {
        (self.s0, self.s1, self.s2, self.s3)
    }

    /// A generator seeded from `seed`: its state is the first four splitmix64
    /// outputs of `seed`.
    pub fn from_seed(seed: u64) -> (r: Rng)
        ensures
            r@ == seeded_state(seed),
    {
        let (x, a) = splitmix_next(seed);
        let (x, b) = splitmix_next(x);
        let (x, c) = splitmix_next(x);
        let (_, d) = splitmix_next(x);
        proof {
            reveal_with_fuel(splitmix_counter, 5);
        }
        Rng { s0: a, s1: b, s2: c, s3: d }
    }

    /// The next 64-bit value of the stream.
    pub fn next_u64(&mut self) -> (r: u64)
        ensures
            r == xoshiro_output(old(self)@),
            final(self)@ == xoshiro_step(old(self)@),
    {
        let result = add_wrapping(rotate_left(add_wrapping(self.s0, self.s3), 23), self.s0);
        let t = self.s1 << 17;
        self.s2 = self.s2 ^ self.s0;
        self.s3 = self.s3 ^ self.s1;
        self.s1 = self.s1 ^ self.s2;
        self.s0 = self.s0 ^ self.s3;
        self.s2 = self.s2 ^ t;
        self.s3 = rotate_left(self.s3, 45);
        result
    }

    /// The top 24 bits of the next value: the integer behind a uniform
    /// single-precision draw in [0, 1) (that draw is this value times 2^-24).
    pub fn next_bits24(&mut self) -> (r: u32)
        ensures
            r == xoshiro_output(old(self)@) >> 40u64,
            r < 0x100_0000,
            final(self)@ == xoshiro_step(old(self)@),
    {
        let x = self.next_u64();
        assert(x >> 40u64 < 0x100_0000u64) by (bit_vector);
        (x >> 40) as u32
    }

    /// The top 53 bits of the next value: the integer behind a uniform
    /// double-precision draw in [0, 1) (that draw is this value times 2^-53).
    pub fn next_bits53(&mut self) -> (r: u64)
        ensures
            r == xoshiro_output(old(self)@) >> 11u64,
            r < 0x20_0000_0000_0000,
            final(self)@ == xoshiro_step(old(self)@),
    {
        let x = self.next_u64();
        assert(x >> 11u64 < 0x20_0000_0000_0000u64) by (bit_vector);
        x >> 11
    }

    /// A uniform integer in [0, n): the next value reduced modulo `n`.
    /// `n` must be positive. Modulo bias is negligible at the ranges the
    /// simulation uses.
    pub fn below(&mut self, n: usize) -> (r: usize)
        requires
            n > 0,
        ensures
            r < n,
            r as int == xoshiro_output(old(self)@) as int % n as int,
            final(self)@ == xoshiro_step(old(self)@),
    {
        let x = self.next_u64();
        (x % (n as u64)) as usize
    }

    /// The raw state, for snapshots.
    pub fn to_raw(&self) -> (r: RawRng)
        ensures
            r.s@ == raw_words(self@),
    {
        let r = RawRng { s: [self.s0, self.s1, self.s2, self.s3] };
        assert(r.s@ =~= raw_words(self@));
        r
    }

    /// A generator resumed from a raw state.
    pub fn from_raw(raw: &RawRng) -> (r: Rng)
        ensures
            r@ == state_of_words(raw.s@),
    {
        Rng { s0: raw.s[0], s1: raw.s[1], s2: raw.s[2], s3: raw.s[3] }
    }
}

} // verus!
