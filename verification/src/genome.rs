//! Wiring genes (biosim4-style connections), as the integer data the
//! genome logic orders, matches and counts.
//!
//! A gene wires a source (a sense or a hidden neuron) to a sink (a hidden
//! neuron or an output) with a weight. The weight is carried as its IEEE-754
//! single-precision bit pattern: the genome logic here only orders and
//! compares weights, and the total order it uses is defined on that bit
//! pattern. Duplicate (source, sink) pairs are legal and their weights
//! simply sum, which is what makes gene duplication meaningful.

use vstd::prelude::*;

verus! {

broadcast use vstd::seq_lib::group_to_multiset_ensures;

/// Senses a brain reads.
pub const N_SENSES: usize = 12;

/// Hidden neurons a brain has.
pub const N_HIDDEN: usize = 16;

/// Outputs a brain drives (turn, thrust, bite).
pub const N_OUTPUTS: usize = 3;

/// One wiring gene.
#[derive(Clone, Copy, Debug, PartialEq, Eq, Structural)]
pub struct Connection {
    /// The source is a hidden neuron (else a sense).
    pub from_hidden: bool,
    pub from: u8,
    /// The sink is an output (else a hidden neuron).
    pub to_output: bool,
    pub to: u8,
    /// The weight's IEEE-754 single-precision bit pattern.
    pub weight_bits: u32,
}

/// `b` as 0 or 1.
pub open spec fn bit(b: bool) -> int {
    if b {
        1
    } else {
        0
    }
}

/// Whether both endpoints of `c` name neurons that exist.
pub open spec fn wired_in_range(c: Connection) -> bool {
    &&& (c.from as int) < (if c.from_hidden {
        N_HIDDEN
    } else {
        N_SENSES
    }) as int
    &&& (c.to as int) < (if c.to_output {
        N_OUTPUTS
    } else {
        N_HIDDEN
    }) as int
}

/// The position of `c`'s (source, sink) wiring in lexicographic order of
/// `(from_hidden, from, to_output, to)`.
pub open spec fn wiring_key(c: Connection) -> int {
    ((bit(c.from_hidden) * 256 + c.from as int) * 2 + bit(c.to_output)) * 256 + c.to as int
}

/// The position of a weight in the IEEE-754 total order (negative NaNs,
/// then negative numbers from −∞ up, −0, +0, positive numbers up to +∞,
/// positive NaNs), computed from its bit pattern: negative patterns are
/// inverted, non-negative ones have their sign bit set.
pub open spec fn total_order_bits(b: u32) -> u32 {
    if b >= 0x8000_0000 {
        (0xffff_ffff - b) as u32
    } else {
        (b + 0x8000_0000) as u32
    }
}

/// The order genes are sorted in: by wiring, then by weight in the total
/// order.
pub open spec fn order_key(c: Connection) -> int {
    wiring_key(c) * 0x1_0000_0000 + total_order_bits(c.weight_bits) as int
}

/// `s` is in non-decreasing `order_key` order.
pub open spec fn is_sorted(s: Seq<Connection>) -> bool {
    forall|i: int, j: int| 0 <= i <= j < s.len() ==> order_key(s[i]) <= order_key(s[j])
}

/// The total order position of a weight is a bijection of bit patterns.
pub proof fn lemma_total_order_bits_injective(a: u32, b: u32)
    ensures
        total_order_bits(a) == total_order_bits(b) ==> a == b,
{
}

/// Genes with the same sort position are the same gene: a sorted
/// arrangement of a gene list is unique.
pub proof fn lemma_order_key_injective(a: Connection, b: Connection)
    ensures
        order_key(a) == order_key(b) ==> a == b,
{
    if order_key(a) == order_key(b) {
        let (ka, kb) = (wiring_key(a), wiring_key(b));
        let (ta, tb) = (total_order_bits(a.weight_bits) as int, total_order_bits(b.weight_bits) as int);
        vstd::arithmetic::div_mod::lemma_fundamental_div_mod_converse(order_key(a), 0x1_0000_0000, ka, ta);
        vstd::arithmetic::div_mod::lemma_fundamental_div_mod_converse(order_key(b), 0x1_0000_0000, kb, tb);
        lemma_total_order_bits_injective(a.weight_bits, b.weight_bits);
        assert(a.from_hidden == b.from_hidden);
        assert(a.from == b.from);
        assert(a.to_output == b.to_output);
        assert(a.to == b.to);
    }
}

/// Two gene lists in sorted order holding the same genes are the same
/// list: the contract of `sorted_connections` determines its result.
pub proof fn lemma_sorted_unique(s: Seq<Connection>, t: Seq<Connection>)
    requires
        is_sorted(s),
        is_sorted(t),
        s.to_multiset() == t.to_multiset(),
    ensures
        s == t,
    decreases s.len(),
{
    vstd::seq_lib::to_multiset_len(s);
    vstd::seq_lib::to_multiset_len(t);
    if s.len() > 0 {
        vstd::seq_lib::to_multiset_contains(s, t[0]);
        vstd::seq_lib::to_multiset_contains(t, s[0]);
        assert(t.to_multiset().count(t[0]) > 0);
        assert(s.contains(t[0]));
        assert(t.contains(s[0]));
        let i = choose|i: int| 0 <= i < s.len() && s[i] == t[0];
        let j = choose|j: int| 0 <= j < t.len() && t[j] == s[0];
        assert(order_key(s[0]) <= order_key(s[i]));
        assert(order_key(t[0]) <= order_key(t[j]));
        lemma_order_key_injective(s[0], t[0]);
        vstd::seq_lib::to_multiset_remove(s, 0);
        vstd::seq_lib::to_multiset_remove(t, 0);
        assert(s.remove(0) =~= s.drop_first());
        assert(t.remove(0) =~= t.drop_first());
        lemma_sorted_unique(s.drop_first(), t.drop_first());
        assert(s =~= seq![s[0]] + s.drop_first());
        assert(t =~= seq![t[0]] + t.drop_first());
    } else {
        assert(t.len() == 0);
        assert(s =~= t);
    }
}

impl Connection {
    /// Whether both endpoints name neurons that exist.
    pub fn is_wired_in_range(&self) -> (r: bool)
        ensures
            r == wired_in_range(*self),
    {
        let src_pool = if self.from_hidden {
            N_HIDDEN
        } else {
            N_SENSES
        };
        let dst_pool = if self.to_output {
            N_OUTPUTS
        } else {
            N_HIDDEN
        };
        (self.from as usize) < src_pool && (self.to as usize) < dst_pool
    }

    /// The (source, sink) wiring, the key genes are matched by.
    pub fn sort_key(&self) -> (r: (bool, u8, bool, u8))
        ensures
            r == (self.from_hidden, self.from, self.to_output, self.to),
    {
        (self.from_hidden, self.from, self.to_output, self.to)
    }

    /// `wiring_key` as a machine integer.
    pub fn wiring_rank(&self) -> (r: u32)
        ensures
            r as int == wiring_key(*self),
    {
        let fh: u32 = if self.from_hidden {
            1
        } else {
            0
        };
        let to: u32 = if self.to_output {
            1
        } else {
            0
        };
        ((fh * 256 + self.from as u32) * 2 + to) * 256 + self.to as u32
    }

    /// `order_key` as a machine integer.
    pub fn order_rank(&self) -> (r: u64)
        ensures
            r as int == order_key(*self),
    {
        let b = self.weight_bits;
        let t: u32 = if b >= 0x8000_0000 {
            0xffff_ffff - b
        } else {
            b + 0x8000_0000
        };
        self.wiring_rank() as u64 * 0x1_0000_0000 + t as u64
    }
}

/// The genes of `conns` sorted by wiring, then by weight in the IEEE-754
/// total order (the order the distance merge walks).
pub fn sorted_connections(conns: &Vec<Connection>) -> (r: Vec<Connection>)
    ensures
        r@.to_multiset() == conns@.to_multiset(),
        is_sorted(r@),
{
    let mut out: Vec<Connection> = Vec::with_capacity(conns.len());
    let mut i: usize = 0;
    while i < conns.len()
        invariant
            i <= conns@.len(),
            out@.to_multiset() == conns@.take(i as int).to_multiset(),
            is_sorted(out@),
        decreases conns@.len() - i,
    {
        let c = conns[i];
        let key = c.order_rank();
        let mut p: usize = out.len();
        while p > 0 && out[p - 1].order_rank() > key
            invariant
                p <= out@.len(),
                is_sorted(out@),
                forall|q: int| p <= q < out@.len() ==> order_key(#[trigger] out@[q]) > key,
            decreases p,
        {
            p = p - 1;
        }
        let ghost before = out@;
        out.insert(p, c);
        assert(conns@.take(i as int + 1) =~= conns@.take(i as int).push(c));
        assert forall|a: int, b: int| 0 <= a <= b < out@.len() implies order_key(out@[a]) <= order_key(
            out@[b],
        ) by {
            if a < p as int && b > p as int {
                assert(out@[a] == before[a] && out@[b] == before[b - 1]);
            } else if a < p as int && b == p as int {
                assert(out@[a] == before[a]);
                assert(order_key(before[p - 1]) <= key);
            } else if a == p as int && b > p as int {
                assert(out@[b] == before[b - 1]);
            } else if a > p as int {
                assert(out@[a] == before[a - 1] && out@[b] == before[b - 1]);
            } else if b < p as int {
                assert(out@[a] == before[a] && out@[b] == before[b]);
            }
        }
        i = i + 1;
    }
    assert(conns@.take(conns@.len() as int) =~= conns@);
    out
}

/// The merge of two gene lists sorted by wiring, from positions `i` of `a`
/// and `j` of `b`: genes with the same wiring are paired (in order), every
/// other gene counts as unmatched. Returns the pairs of positions and the
/// number of unmatched genes.
pub open spec fn merge_wiring(a: Seq<Connection>, b: Seq<Connection>, i: nat, j: nat) -> (
    Seq<(int, int)>,
    nat,
)
    decreases a.len() - i + b.len() - j,
{
    if i < a.len() && j < b.len() {
        let (ka, kb) = (wiring_key(a[i as int]), wiring_key(b[j as int]));
        if ka == kb {
            let r = merge_wiring(a, b, i + 1, j + 1);
            (seq![(i as int, j as int)] + r.0, r.1)
        } else if ka < kb {
            let r = merge_wiring(a, b, i + 1, j);
            (r.0, r.1 + 1)
        } else {
            let r = merge_wiring(a, b, i, j + 1);
            (r.0, r.1 + 1)
        }
    } else {
        (
            Seq::empty(),
            ((if i < a.len() {
                a.len() - i
            } else {
                0
            }) + (if j < b.len() {
                b.len() - j
            } else {
                0
            })) as nat,
        )
    }
}

/// Matching a gene list against itself pairs every gene with itself and
/// leaves nothing unmatched: identical genomes have no wiring difference.
pub proof fn lemma_merge_self(a: Seq<Connection>, i: nat)
    requires
        i <= a.len(),
    ensures
        merge_wiring(a, a, i, i).0 == Seq::new((a.len() - i) as nat, |k: int| (i + k, i + k)),
        merge_wiring(a, a, i, i).1 == 0,
    decreases a.len() - i,
{
    if i < a.len() {
        lemma_merge_self(a, i + 1);
        assert(merge_wiring(a, a, i, i).0 =~= Seq::new((a.len() - i) as nat, |k: int| (i + k, i + k)));
    } else {
        assert(merge_wiring(a, a, i, i).0 =~= Seq::new((a.len() - i) as nat, |k: int| (i + k, i + k)));
    }
}

/// Matching is symmetric: swapping the lists swaps each pair and leaves the
/// unmatched count unchanged.
pub proof fn lemma_merge_symmetric(a: Seq<Connection>, b: Seq<Connection>, i: nat, j: nat)
    ensures
        merge_wiring(b, a, j, i).0 == merge_wiring(a, b, i, j).0.map_values(
            |p: (int, int)| (p.1, p.0),
        ),
        merge_wiring(b, a, j, i).1 == merge_wiring(a, b, i, j).1,
    decreases a.len() - i + b.len() - j,
{
    if i < a.len() && j < b.len() {
        let (ka, kb) = (wiring_key(a[i as int]), wiring_key(b[j as int]));
        if ka == kb {
            lemma_merge_symmetric(a, b, i + 1, j + 1);
        } else if ka < kb {
            lemma_merge_symmetric(a, b, i + 1, j);
        } else {
            lemma_merge_symmetric(a, b, i, j + 1);
        }
        assert(merge_wiring(b, a, j, i).0 =~= merge_wiring(a, b, i, j).0.map_values(
            |p: (int, int)| (p.1, p.0),
        ));
    } else {
        assert(merge_wiring(b, a, j, i).0 =~= merge_wiring(a, b, i, j).0.map_values(
            |p: (int, int)| (p.1, p.0),
        ));
    }
}

/// Every gene is accounted for exactly once: each pair covers one gene of
/// each list, and the rest are unmatched.
pub proof fn lemma_merge_accounts_for_every_gene(a: Seq<Connection>, b: Seq<Connection>, i: nat, j: nat)
    requires
        i <= a.len(),
        j <= b.len(),
    ensures
        2 * merge_wiring(a, b, i, j).0.len() + merge_wiring(a, b, i, j).1 == (a.len() - i) + (
        b.len() - j),
    decreases a.len() - i + b.len() - j,
{
    if i < a.len() && j < b.len() {
        let (ka, kb) = (wiring_key(a[i as int]), wiring_key(b[j as int]));
        if ka == kb {
            lemma_merge_accounts_for_every_gene(a, b, i + 1, j + 1);
        } else if ka < kb {
            lemma_merge_accounts_for_every_gene(a, b, i + 1, j);
        } else {
            lemma_merge_accounts_for_every_gene(a, b, i, j + 1);
        }
    }
}

/// `a` and `b` run from the same source to the same sink.
pub open spec fn same_wiring(a: Connection, b: Connection) -> bool {
    a.from_hidden == b.from_hidden && a.from == b.from && a.to_output == b.to_output && a.to == b.to
}

/// Genes with the same wiring position have the same source and sink.
pub proof fn lemma_wiring_key_injective(a: Connection, b: Connection)
    ensures
        wiring_key(a) == wiring_key(b) <==> same_wiring(a, b),
{
    if wiring_key(a) == wiring_key(b) {
        let (ha, hb) = ((bit(a.from_hidden) * 256 + a.from as int) * 2 + bit(a.to_output), (bit(
            b.from_hidden,
        ) * 256 + b.from as int) * 2 + bit(b.to_output));
        vstd::arithmetic::div_mod::lemma_fundamental_div_mod_converse(wiring_key(a), 256, ha, a.to as int);
        vstd::arithmetic::div_mod::lemma_fundamental_div_mod_converse(wiring_key(b), 256, hb, b.to as int);
        let (ga, gb) = (bit(a.from_hidden) * 256 + a.from as int, bit(b.from_hidden) * 256 + b.from as int);
        vstd::arithmetic::div_mod::lemma_fundamental_div_mod_converse(ha, 2, ga, bit(a.to_output));
        vstd::arithmetic::div_mod::lemma_fundamental_div_mod_converse(hb, 2, gb, bit(b.to_output));
        vstd::arithmetic::div_mod::lemma_fundamental_div_mod_converse(ga, 256, bit(a.from_hidden), a.from as int);
        vstd::arithmetic::div_mod::lemma_fundamental_div_mod_converse(gb, 256, bit(b.from_hidden), b.from as int);
    }
}

/// Matching pairs only genes with the same source and sink, each pair
/// names a gene of each list, and the pairs advance through both lists.
pub proof fn lemma_merge_pairs_share_wiring(a: Seq<Connection>, b: Seq<Connection>, i: nat, j: nat)
    ensures
        forall|k: int|
            #![trigger merge_wiring(a, b, i, j).0[k]]
            0 <= k < merge_wiring(a, b, i, j).0.len() ==> {
                let (p, q) = merge_wiring(a, b, i, j).0[k];
                &&& i <= p < a.len()
                &&& j <= q < b.len()
                &&& same_wiring(a[p], b[q])
            },
        forall|k: int, l: int|
            0 <= k < l < merge_wiring(a, b, i, j).0.len() ==> merge_wiring(a, b, i, j).0[k].0
                < merge_wiring(a, b, i, j).0[l].0 && merge_wiring(a, b, i, j).0[k].1 < merge_wiring(
                a,
                b,
                i,
                j,
            ).0[l].1,
    decreases a.len() - i + b.len() - j,
{
    if i < a.len() && j < b.len() {
        let (ka, kb) = (wiring_key(a[i as int]), wiring_key(b[j as int]));
        if ka == kb {
            lemma_merge_pairs_share_wiring(a, b, i + 1, j + 1);
            lemma_wiring_key_injective(a[i as int], b[j as int]);
            let r = merge_wiring(a, b, i + 1, j + 1).0;
            let m = merge_wiring(a, b, i, j).0;
            assert(m == seq![(i as int, j as int)] + r);
            assert forall|k: int| #![trigger m[k]] 0 <= k < m.len() implies {
                let (p, q) = m[k];
                &&& i <= p < a.len()
                &&& j <= q < b.len()
                &&& same_wiring(a[p], b[q])
            } by {
                if k > 0 {
                    assert(m[k] == r[k - 1]);
                }
            }
            assert forall|k: int, l: int| 0 <= k < l < m.len() implies m[k].0 < m[l].0 && m[k].1
                < m[l].1 by {
                assert(m[l] == r[l - 1]);
                if k > 0 {
                    assert(m[k] == r[k - 1]);
                }
            }
        } else if ka < kb {
            lemma_merge_pairs_share_wiring(a, b, i + 1, j);
            assert(merge_wiring(a, b, i, j).0 == merge_wiring(a, b, i + 1, j).0);
        } else {
            lemma_merge_pairs_share_wiring(a, b, i, j + 1);
            assert(merge_wiring(a, b, i, j).0 == merge_wiring(a, b, i, j + 1).0);
        }
    } else {
        assert(merge_wiring(a, b, i, j).0.len() == 0);
    }
}

/// The result of matching two sorted gene lists.
pub struct WiringMatch {
    /// Positions `(i, j)` of genes with the same wiring, in merge order.
    pub pairs: Vec<(usize, usize)>,
    /// Genes of either list left without a partner.
    pub unmatched: usize,
}

/// Match two gene lists sorted by wiring (as `sorted_connections` returns
/// them): walk both in step, pair genes whose wiring is equal, and count
/// every other gene as unmatched.
pub fn match_wiring(a: &Vec<Connection>, b: &Vec<Connection>) -> (r: WiringMatch)
    requires
        a@.len() + b@.len() <= usize::MAX,
    ensures
        r.pairs@.map_values(|p: (usize, usize)| (p.0 as int, p.1 as int)) == merge_wiring(
            a@,
            b@,
            0,
            0,
        ).0,
        r.unmatched == merge_wiring(a@, b@, 0, 0).1,
        forall|k: int|
            0 <= k < r.pairs@.len() ==> (#[trigger] r.pairs@[k]).0 < a@.len() && r.pairs@[k].1
                < b@.len() && same_wiring(a@[r.pairs@[k].0 as int], b@[r.pairs@[k].1 as int]),
        2 * r.pairs@.len() + r.unmatched == a@.len() + b@.len(),
{
    let ghost total = merge_wiring(a@, b@, 0, 0);
    proof {
        lemma_merge_pairs_share_wiring(a@, b@, 0, 0);
    }
    let mut pairs: Vec<(usize, usize)> = Vec::new();
    let mut unmatched: usize = 0;
    let mut i: usize = 0;
    let mut j: usize = 0;
    proof {
        lemma_merge_accounts_for_every_gene(a@, b@, 0, 0);
    }
    while i < a.len() && j < b.len()
        invariant
            i <= a@.len(),
            j <= b@.len(),
            pairs@.map_values(|p: (usize, usize)| (p.0 as int, p.1 as int)) + merge_wiring(
                a@,
                b@,
                i as nat,
                j as nat,
            ).0 == total.0,
            unmatched + merge_wiring(a@, b@, i as nat, j as nat).1 == total.1,
            2 * total.0.len() + total.1 == a@.len() + b@.len(),
            a@.len() + b@.len() <= usize::MAX,
        decreases a@.len() - i + b@.len() - j,
    {
        let ka = a[i].wiring_rank();
        let kb = b[j].wiring_rank();
        let ghost rest = merge_wiring(a@, b@, i as nat, j as nat);
        if ka == kb {
            let ghost before = pairs@.map_values(|p: (usize, usize)| (p.0 as int, p.1 as int));
            pairs.push((i, j));
            assert(pairs@.map_values(|p: (usize, usize)| (p.0 as int, p.1 as int)) =~= before.push(
                (i as int, j as int),
            ));
            assert(before.push((i as int, j as int)) + merge_wiring(a@, b@, i as nat + 1, j as nat + 1).0
                =~= before + rest.0);
            i = i + 1;
            j = j + 1;
        } else if ka < kb {
            unmatched = unmatched + 1;
            i = i + 1;
        } else {
            unmatched = unmatched + 1;
            j = j + 1;
        }
    }
    let tail = (a.len() - i) + (b.len() - j);
    assert(merge_wiring(a@, b@, i as nat, j as nat).0 =~= Seq::<(int, int)>::empty());
    assert(pairs@.map_values(|p: (usize, usize)| (p.0 as int, p.1 as int)) =~= total.0);
    assert forall|k: int| 0 <= k < pairs@.len() implies (#[trigger] pairs@[k]).0 < a@.len()
        && pairs@[k].1 < b@.len() && same_wiring(a@[pairs@[k].0 as int], b@[pairs@[k].1 as int]) by {
        assert(total.0[k] == (pairs@[k].0 as int, pairs@[k].1 as int));
    }
    WiringMatch { pairs, unmatched: unmatched + tail }
}

} // verus!
