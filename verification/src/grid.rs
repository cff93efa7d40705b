//! A dense uniform grid for neighbour queries: the degenerate (and fastest,
//! and deterministic) form of a spatial hash for a bounded wraparound world.
//! Buckets are plain `Vec`s filled in insertion order and visited in fixed
//! cell order, so query results never depend on hashing or allocation
//! state. Rebuilt every tick; never serialized.
//!
//! Positions enter as the truncated quotients `position / cell_extent`;
//! the grid clamps them onto its cells.

use vstd::arithmetic::div_mod::lemma_fundamental_div_mod_converse;
use vstd::prelude::*;

verus! {

/// The fewest cells per axis. With fewer, the wrapped 3×3 neighbourhood
/// would visit some cell twice.
pub const MIN_CELLS: usize = 3;

/// The most cells per axis.
pub const MAX_CELLS: usize = 1024;

/// `v` clamped into `[lo, hi]`.
pub open spec fn clamp_int(v: int, lo: int, hi: int) -> int {
    if v < lo {
        lo
    } else if v > hi {
        hi
    } else {
        v
    }
}

/// Euclidean remainder of `v` by a positive `n`.
pub open spec fn wrap_index(v: int, n: int) -> int {
    ((v % n) + n) % n
}

/// The flat index of cell `(gx, gy)` on a grid `nx` cells wide.
pub open spec fn flat_index(gx: int, gy: int, nx: int) -> int {
    gy * nx + gx
}

/// The nine cells of the wrapped 3×3 neighbourhood of cell `(cx, cy)`, in
/// visiting order: rows from above to below, each row from left to right.
pub open spec fn neighborhood(cx: int, cy: int, nx: int, ny: int) -> Seq<int> {
    Seq::new(
        9,
        |k: int|
            flat_index(wrap_index(cx + (k % 3) - 1, nx), wrap_index(cy + (k / 3) - 1, ny), nx),
    )
}

/// The contents of the buckets `cells`, concatenated in order.
pub open spec fn gather(buckets: Seq<Seq<u32>>, cells: Seq<int>) -> Seq<u32>
    decreases cells.len(),
{
    if cells.len() == 0 {
        Seq::empty()
    } else {
        gather(buckets, cells.drop_last()) + buckets[cells.last()]
    }
}

/// `c + step - 1` wrapped onto `[0, n)`, for a cell `c < n` and a step in
/// `0..3`.
fn wrap_step(c: usize, step: usize, n: usize) -> (r: usize)
    requires
        c < n,
        step < 3,
        MIN_CELLS <= n <= MAX_CELLS,
    ensures
        r < n,
        r == wrap_index(c + step - 1, n as int),
{
    proof {
        lemma_wrap_small(c + step - 1, n as int);
    }
    if c + step == 0 {
        n - 1
    } else if c + step - 1 >= n {
        c + step - 1 - n
    } else {
        c + step - 1
    }
}

/// On `[-n, 2n)` wrapping is at most one shift by `n`.
pub proof fn lemma_wrap_small(v: int, n: int)
    requires
        n > 0,
        -n <= v < 2 * n,
    ensures
        wrap_index(v, n) == if v < 0 {
            v + n
        } else if v >= n {
            v - n
        } else {
            v
        },
{
    let r = if v < 0 {
        v + n
    } else if v >= n {
        v - n
    } else {
        v
    };
    let q = if v < 0 {
        -1
    } else if v >= n {
        1
    } else {
        0
    };
    assert(v == q * n + r);
    lemma_fundamental_div_mod_converse(v, n, q, r);
    assert(r + n == 1 * n + r);
    lemma_fundamental_div_mod_converse(r + n, n, 1, r);
}

/// A cell of an `nx × ny` grid has a flat index below `nx * ny`.
pub proof fn lemma_flat_index_in_range(gx: int, gy: int, nx: int, ny: int)
    requires
        0 <= gx < nx <= MAX_CELLS,
        0 <= gy < ny <= MAX_CELLS,
    ensures
        0 <= gy * nx <= flat_index(gx, gy, nx) < nx * ny <= MAX_CELLS * MAX_CELLS,
{
    assert(0 <= gy * nx <= gy * nx + gx < nx * ny <= MAX_CELLS * MAX_CELLS) by (nonlinear_arith)
        requires
            0 <= gx < nx <= MAX_CELLS,
            0 <= gy < ny <= MAX_CELLS,
    ;
}

/// Whether coordinate `g` is at most one step from `c` on a wrapped axis of
/// `n` cells.
pub open spec fn within_one(g: int, c: int, n: int) -> bool {
    let d = wrap_index(g - c, n);
    d == 0 || d == 1 || d == n - 1
}

/// Distinct steps in `0..3` from the same cell land on distinct cells when
/// the axis has at least three cells.
proof fn lemma_wrap_steps_distinct(c: int, n: int, a: int, b: int)
    requires
        0 <= c < n,
        MIN_CELLS <= n,
        0 <= a < 3,
        0 <= b < 3,
        a != b,
    ensures
        wrap_index(c + a - 1, n) != wrap_index(c + b - 1, n),
{
    lemma_wrap_small(c + a - 1, n);
    lemma_wrap_small(c + b - 1, n);
}

/// The row-major flat index is injective on the cells of a grid.
proof fn lemma_flat_index_injective(gx: int, gy: int, hx: int, hy: int, nx: int)
    requires
        0 <= gx < nx,
        0 <= hx < nx,
        0 <= gy,
        0 <= hy,
        flat_index(gx, gy, nx) == flat_index(hx, hy, nx),
    ensures
        gx == hx,
        gy == hy,
{
    lemma_fundamental_div_mod_converse(flat_index(gx, gy, nx), nx, gy, gx);
    lemma_fundamental_div_mod_converse(flat_index(hx, hy, nx), nx, hy, hx);
}

/// `g` is within one wrapped step of `c` exactly when it is one of the
/// three cells `c - 1`, `c`, `c + 1` (wrapped).
proof fn lemma_within_one_steps(g: int, c: int, n: int)
    requires
        0 <= c < n,
        0 <= g < n,
        MIN_CELLS <= n,
    ensures
        within_one(g, c, n) <==> (g == wrap_index(c - 1, n) || g == wrap_index(c, n) || g
            == wrap_index(c + 1, n)),
{
    lemma_wrap_small(g - c, n);
    lemma_wrap_small(c - 1, n);
    lemma_wrap_small(c, n);
    lemma_wrap_small(c + 1, n);
}

/// The nine neighbourhood cells are pairwise distinct: no bucket is visited
/// twice.
pub proof fn lemma_neighborhood_distinct(cx: int, cy: int, nx: int, ny: int)
    requires
        0 <= cx < nx <= MAX_CELLS,
        0 <= cy < ny <= MAX_CELLS,
        MIN_CELLS <= nx,
        MIN_CELLS <= ny,
    ensures
        neighborhood(cx, cy, nx, ny).no_duplicates(),
{
    let cells = neighborhood(cx, cy, nx, ny);
    assert forall|i: int, j: int| 0 <= i < cells.len() && 0 <= j < cells.len() && i != j implies cells[i]
        != cells[j] by {
        let (ai, bi, aj, bj) = (i % 3, i / 3, j % 3, j / 3);
        assert(i == 3 * bi + ai && j == 3 * bj + aj);
        let (gx, gy) = (wrap_index(cx + ai - 1, nx), wrap_index(cy + bi - 1, ny));
        let (hx, hy) = (wrap_index(cx + aj - 1, nx), wrap_index(cy + bj - 1, ny));
        lemma_wrap_small(cx + ai - 1, nx);
        lemma_wrap_small(cy + bi - 1, ny);
        lemma_wrap_small(cx + aj - 1, nx);
        lemma_wrap_small(cy + bj - 1, ny);
        if cells[i] == cells[j] {
            lemma_flat_index_injective(gx, gy, hx, hy, nx);
            if ai != aj {
                lemma_wrap_steps_distinct(cx, nx, ai, aj);
            } else {
                lemma_wrap_steps_distinct(cy, ny, bi, bj);
            }
        }
    }
}

/// A cell is in the neighbourhood of `(cx, cy)` exactly when it is within
/// one wrapped step of it along both axes.
pub proof fn lemma_neighborhood_is_wrapped_3x3(cx: int, cy: int, nx: int, ny: int, gx: int, gy: int)
    requires
        0 <= cx < nx,
        0 <= cy < ny,
        0 <= gx < nx,
        0 <= gy < ny,
        MIN_CELLS <= nx,
        MIN_CELLS <= ny,
    ensures
        neighborhood(cx, cy, nx, ny).contains(flat_index(gx, gy, nx)) <==> (within_one(gx, cx, nx)
            && within_one(gy, cy, ny)),
{
    let cells = neighborhood(cx, cy, nx, ny);
    lemma_within_one_steps(gx, cx, nx);
    lemma_within_one_steps(gy, cy, ny);
    if cells.contains(flat_index(gx, gy, nx)) {
        let k = choose|k: int| 0 <= k < cells.len() && cells[k] == flat_index(gx, gy, nx);
        let (a, b) = (k % 3, k / 3);
        lemma_wrap_small(cx + a - 1, nx);
        lemma_wrap_small(cy + b - 1, ny);
        lemma_flat_index_injective(
            wrap_index(cx + a - 1, nx),
            wrap_index(cy + b - 1, ny),
            gx,
            gy,
            nx,
        );
        assert(a == 0 || a == 1 || a == 2);
        assert(b == 0 || b == 1 || b == 2);
    }
    if within_one(gx, cx, nx) && within_one(gy, cy, ny) {
        let a: int = if gx == wrap_index(cx - 1, nx) {
            0
        } else if gx == wrap_index(cx, nx) {
            1
        } else {
            2
        };
        let b: int = if gy == wrap_index(cy - 1, ny) {
            0
        } else if gy == wrap_index(cy, ny) {
            1
        } else {
            2
        };
        let k = 3 * b + a;
        assert(k % 3 == a && k / 3 == b);
        assert(cells[k] == flat_index(gx, gy, nx));
    }
}

/// An entry is in the gathered contents exactly when it is in one of the
/// gathered buckets.
pub proof fn lemma_gather_contains(buckets: Seq<Seq<u32>>, cells: Seq<int>, e: u32)
    requires
        forall|k: int| 0 <= k < cells.len() ==> 0 <= #[trigger] cells[k] < buckets.len(),
    ensures
        gather(buckets, cells).contains(e) <==> exists|k: int|
            0 <= k < cells.len() && #[trigger] buckets[cells[k]].contains(e),
    decreases cells.len(),
{
    if cells.len() > 0 {
        let init = cells.drop_last();
        lemma_gather_contains(buckets, init, e);
        let g0 = gather(buckets, init);
        let last = buckets[cells.last()];
        if gather(buckets, cells).contains(e) {
            let i = choose|i: int| 0 <= i < (g0 + last).len() && (g0 + last)[i] == e;
            if i < g0.len() {
                assert(g0[i] == e);
                let k = choose|k: int| 0 <= k < init.len() && #[trigger] buckets[init[k]].contains(e);
                assert(cells[k] == init[k]);
            } else {
                assert(last[i - g0.len()] == e);
                assert(buckets[cells[cells.len() - 1]].contains(e));
            }
        }
        if exists|k: int| 0 <= k < cells.len() && #[trigger] buckets[cells[k]].contains(e) {
            let k = choose|k: int| 0 <= k < cells.len() && #[trigger] buckets[cells[k]].contains(e);
            if k < cells.len() - 1 {
                assert(init[k] == cells[k]);
                assert(g0.contains(e));
                let i = choose|i: int| 0 <= i < g0.len() && g0[i] == e;
                assert((g0 + last)[i] == e);
            } else {
                let i = choose|i: int| 0 <= i < last.len() && last[i] == e;
                assert((g0 + last)[g0.len() + i] == e);
            }
        }
    }
}

/// The grid finds every entry filed within one wrapped cell of the query
/// cell along both axes, and nothing else.
pub proof fn lemma_neighbors_are_the_wrapped_3x3(
    buckets: Seq<Seq<u32>>,
    nx: int,
    ny: int,
    cx: int,
    cy: int,
    e: u32,
)
    requires
        MIN_CELLS <= nx <= MAX_CELLS,
        MIN_CELLS <= ny <= MAX_CELLS,
        buckets.len() == nx * ny,
        0 <= cx < nx,
        0 <= cy < ny,
    ensures
        gather(buckets, neighborhood(cx, cy, nx, ny)).contains(e) <==> exists|gx: int, gy: int|
            0 <= gx < nx && 0 <= gy < ny && within_one(gx, cx, nx) && within_one(gy, cy, ny)
                && #[trigger] buckets[flat_index(gx, gy, nx)].contains(e),
{
    let cells = neighborhood(cx, cy, nx, ny);
    assert forall|k: int| 0 <= k < cells.len() implies 0 <= #[trigger] cells[k] < buckets.len() by {
        lemma_wrap_small(cx + k % 3 - 1, nx);
        lemma_wrap_small(cy + k / 3 - 1, ny);
        lemma_flat_index_in_range(wrap_index(cx + k % 3 - 1, nx), wrap_index(cy + k / 3 - 1, ny), nx, ny);
    }
    lemma_gather_contains(buckets, cells, e);
    if gather(buckets, cells).contains(e) {
        let k = choose|k: int| 0 <= k < cells.len() && #[trigger] buckets[cells[k]].contains(e);
        let gx = wrap_index(cx + k % 3 - 1, nx);
        let gy = wrap_index(cy + k / 3 - 1, ny);
        lemma_wrap_small(cx + k % 3 - 1, nx);
        lemma_wrap_small(cy + k / 3 - 1, ny);
        assert(cells.contains(flat_index(gx, gy, nx)));
        lemma_neighborhood_is_wrapped_3x3(cx, cy, nx, ny, gx, gy);
        assert(buckets[flat_index(gx, gy, nx)].contains(e));
    }
    if exists|gx: int, gy: int|
        0 <= gx < nx && 0 <= gy < ny && within_one(gx, cx, nx) && within_one(gy, cy, ny)
            && #[trigger] buckets[flat_index(gx, gy, nx)].contains(e) {
        let (gx, gy) = choose|gx: int, gy: int|
            0 <= gx < nx && 0 <= gy < ny && within_one(gx, cx, nx) && within_one(gy, cy, ny)
                && #[trigger] buckets[flat_index(gx, gy, nx)].contains(e);
        lemma_neighborhood_is_wrapped_3x3(cx, cy, nx, ny, gx, gy);
        let k = choose|k: int| 0 <= k < cells.len() && cells[k] == flat_index(gx, gy, nx);
        assert(buckets[cells[k]].contains(e));
    }
}

/// The flat index of the cell that truncated quotients `q` fall in, on an
/// `nx × ny` grid.
pub open spec fn cell_index(q: (isize, isize), nx: int, ny: int) -> int {
    flat_index(clamp_int(q.0 as int, 0, nx - 1), clamp_int(q.1 as int, 0, ny - 1), nx)
}

/// The entities `0..qs.len()` whose quotients fall in cell `b`, in index
/// order: what bucket `b` holds after filing every entity.
pub open spec fn filed(qs: Seq<(isize, isize)>, nx: int, ny: int, b: int) -> Seq<u32>
    decreases qs.len(),
{
    if qs.len() == 0 {
        Seq::empty()
    } else {
        filed(qs.drop_last(), nx, ny, b) + if cell_index(qs.last(), nx, ny) == b {
            seq![(qs.len() - 1) as u32]
        } else {
            Seq::empty()
        }
    }
}

/// Entity `i` is filed in bucket `b` exactly when its quotients fall in
/// cell `b`: every entity is filed in its own cell and nowhere else.
pub proof fn lemma_filed_contains(qs: Seq<(isize, isize)>, nx: int, ny: int, b: int, i: int)
    requires
        qs.len() <= u32::MAX as nat + 1,
        0 <= i <= u32::MAX,
    ensures
        filed(qs, nx, ny, b).contains(i as u32) <==> (i < qs.len() && cell_index(qs[i], nx, ny)
            == b),
    decreases qs.len(),
{
    if qs.len() > 0 {
        let init = qs.drop_last();
        lemma_filed_contains(init, nx, ny, b, i);
        let f0 = filed(init, nx, ny, b);
        let tail = if cell_index(qs.last(), nx, ny) == b {
            seq![(qs.len() - 1) as u32]
        } else {
            Seq::<u32>::empty()
        };
        if filed(qs, nx, ny, b).contains(i as u32) {
            let k = choose|k: int| 0 <= k < (f0 + tail).len() && (f0 + tail)[k] == i as u32;
            if k < f0.len() {
                assert(f0[k] == i as u32);
                assert(init[i] == qs[i]);
            } else {
                assert(tail[k - f0.len()] == i as u32);
            }
        }
        if i < qs.len() && cell_index(qs[i], nx, ny) == b {
            if i < qs.len() - 1 {
                assert(init[i] == qs[i]);
                let k = choose|k: int| 0 <= k < f0.len() && f0[k] == i as u32;
                assert((f0 + tail)[k] == i as u32);
            } else {
                assert((f0 + tail)[f0.len() as int] == i as u32);
            }
        }
    }
}

/// After filing every entity, a query finds exactly the entities whose
/// cells are within one wrapped step of the query cell along both axes.
pub proof fn lemma_rebuilt_grid_finds_neighbors(
    qs: Seq<(isize, isize)>,
    buckets: Seq<Seq<u32>>,
    nx: int,
    ny: int,
    cx: int,
    cy: int,
    i: int,
)
    requires
        MIN_CELLS <= nx <= MAX_CELLS,
        MIN_CELLS <= ny <= MAX_CELLS,
        buckets.len() == nx * ny,
        forall|b: int| 0 <= b < nx * ny ==> #[trigger] buckets[b] == filed(qs, nx, ny, b),
        qs.len() <= u32::MAX as nat + 1,
        0 <= i <= u32::MAX,
        0 <= cx < nx,
        0 <= cy < ny,
    ensures
        gather(buckets, neighborhood(cx, cy, nx, ny)).contains(i as u32) <==> (i < qs.len()
            && within_one(clamp_int(qs[i].0 as int, 0, nx - 1), cx, nx) && within_one(
            clamp_int(qs[i].1 as int, 0, ny - 1),
            cy,
            ny,
        )),
{
    lemma_neighbors_are_the_wrapped_3x3(buckets, nx, ny, cx, cy, i as u32);
    if gather(buckets, neighborhood(cx, cy, nx, ny)).contains(i as u32) {
        let (gx, gy) = choose|gx: int, gy: int|
            0 <= gx < nx && 0 <= gy < ny && within_one(gx, cx, nx) && within_one(gy, cy, ny)
                && #[trigger] buckets[flat_index(gx, gy, nx)].contains(i as u32);
        lemma_flat_index_in_range(gx, gy, nx, ny);
        lemma_filed_contains(qs, nx, ny, flat_index(gx, gy, nx), i);
        let (hx, hy) = (clamp_int(qs[i].0 as int, 0, nx - 1), clamp_int(qs[i].1 as int, 0, ny - 1));
        lemma_flat_index_injective(hx, hy, gx, gy, nx);
    }
    if i < qs.len() && within_one(clamp_int(qs[i].0 as int, 0, nx - 1), cx, nx) && within_one(
        clamp_int(qs[i].1 as int, 0, ny - 1),
        cy,
        ny,
    ) {
        let (hx, hy) = (clamp_int(qs[i].0 as int, 0, nx - 1), clamp_int(qs[i].1 as int, 0, ny - 1));
        lemma_flat_index_in_range(hx, hy, nx, ny);
        lemma_filed_contains(qs, nx, ny, flat_index(hx, hy, nx), i);
        assert(buckets[flat_index(hx, hy, nx)].contains(i as u32));
    }
}

/// A uniform grid of `nx × ny` buckets of entity indices.
pub struct Grid {
    nx: usize,
    ny: usize,
    buckets: Vec<Vec<u32>>,
}

impl Grid {
    #[verifier::type_invariant]
    closed spec fn shape_ok(&self) -> bool {
        &&& self.buckets@.len() == self.nx * self.ny
        &&& (self.nx == 0 && self.ny == 0) || (MIN_CELLS <= self.nx <= MAX_CELLS && MIN_CELLS
            <= self.ny <= MAX_CELLS)
    }

    /// Cells per row.
    pub closed spec fn spec_nx(&self) -> nat {
        self.nx as nat
    }

    /// Cells per column.
    pub closed spec fn spec_ny(&self) -> nat {
        self.ny as nat
    }

    /// The buckets, row-major: cell `(gx, gy)` is bucket `gy * nx + gx`.
    pub closed spec fn spec_buckets(&self) -> Seq<Seq<u32>> {
        self.buckets@.map_values(|b: Vec<u32>| b@)
    }

    /// Whether the grid has been shaped by `reset`.
    pub open spec fn is_shaped(&self) -> bool {
        self.spec_nx() >= MIN_CELLS
    }

    /// An unshaped grid with no cells.
    pub fn new() -> (g: Grid)
        ensures
            g.spec_nx() == 0,
            g.spec_ny() == 0,
            g.spec_buckets() == Seq::<Seq<u32>>::empty(),
    {
        let g = Grid { nx: 0, ny: 0, buckets: Vec::new() };
        assert(g.spec_buckets() =~= Seq::<Seq<u32>>::empty());
        g
    }

    /// Cells per row.
    pub fn nx(&self) -> (r: usize)
        ensures
            r == self.spec_nx(),
    {
        self.nx
    }

    /// Cells per column.
    pub fn ny(&self) -> (r: usize)
        ensures
            r == self.spec_ny(),
    {
        self.ny
    }

    /// (Re)shape to `nx_raw × ny_raw` cells, clamped to at least
    /// `MIN_CELLS` and at most `MAX_CELLS` per axis, and empty every bucket.
    /// `nx_raw` and `ny_raw` are the world extents divided by the smallest
    /// allowed cell extent, truncated.
    pub fn reset(&mut self, nx_raw: usize, ny_raw: usize)
        ensures
            final(self).spec_nx() == clamp_int(nx_raw as int, MIN_CELLS as int, MAX_CELLS as int),
            final(self).spec_ny() == clamp_int(ny_raw as int, MIN_CELLS as int, MAX_CELLS as int),
            final(self).spec_buckets().len() == final(self).spec_nx() * final(self).spec_ny(),
            forall|i: int|
                0 <= i < final(self).spec_buckets().len() ==> final(self).spec_buckets()[i]
                    == Seq::<u32>::empty(),
    {
        proof {
            use_type_invariant(&*self);
        }
        let nx = if nx_raw < MIN_CELLS {
            MIN_CELLS
        } else if nx_raw > MAX_CELLS {
            MAX_CELLS
        } else {
            nx_raw
        };
        let ny = if ny_raw < MIN_CELLS {
            MIN_CELLS
        } else if ny_raw > MAX_CELLS {
            MAX_CELLS
        } else {
            ny_raw
        };
        if self.nx != nx || self.ny != ny {
            assert(nx * ny <= MAX_CELLS * MAX_CELLS) by (nonlinear_arith)
                requires
                    nx <= MAX_CELLS,
                    ny <= MAX_CELLS,
            ;
            let total = nx * ny;
            let mut buckets: Vec<Vec<u32>> = Vec::with_capacity(total);
            let mut i: usize = 0;
            while i < total
                invariant
                    i <= total,
                    buckets@.len() == i,
                    forall|j: int| 0 <= j < i ==> (#[trigger] buckets@[j])@ == Seq::<u32>::empty(),
                decreases total - i,
            {
                buckets.push(Vec::new());
                i = i + 1;
            }
            *self = Grid { nx, ny, buckets };
        } else {
            let total = self.buckets.len();
            let mut i: usize = 0;
            while i < total
                invariant
                    i <= total,
                    total == self.nx * self.ny,
                    self.nx == nx,
                    self.ny == ny,
                    MIN_CELLS <= nx <= MAX_CELLS,
                    MIN_CELLS <= ny <= MAX_CELLS,
                    self.buckets@.len() == total,
                    forall|j: int| 0 <= j < i ==> (#[trigger] self.buckets@[j])@ == Seq::<u32>::empty(),
                decreases total - i,
            {
                self.buckets[i].clear();
                i = i + 1;
            }
        }
    }

    /// The cell that truncated quotients `(qx, qy)` fall in: each clamped
    /// onto the grid.
    pub fn cell(&self, qx: isize, qy: isize) -> (r: (usize, usize))
        requires
            self.is_shaped(),
        ensures
            r.0 == clamp_int(qx as int, 0, self.spec_nx() - 1),
            r.1 == clamp_int(qy as int, 0, self.spec_ny() - 1),
            r.0 < self.spec_nx(),
            r.1 < self.spec_ny(),
    {
        proof {
            use_type_invariant(self);
        }
        let cx = if qx < 0 {
            0
        } else if qx as usize > self.nx - 1 {
            self.nx - 1
        } else {
            qx as usize
        };
        let cy = if qy < 0 {
            0
        } else if qy as usize > self.ny - 1 {
            self.ny - 1
        } else {
            qy as usize
        };
        (cx, cy)
    }

    /// Record entity `idx` in the cell that truncated quotients `(qx, qy)`
    /// fall in, after the entries already there.
    pub fn insert(&mut self, qx: isize, qy: isize, idx: u32)
        requires
            old(self).is_shaped(),
        ensures
            final(self).spec_nx() == old(self).spec_nx(),
            final(self).spec_ny() == old(self).spec_ny(),
            final(self).spec_buckets() == old(self).spec_buckets().update(
                flat_index(
                    clamp_int(qx as int, 0, old(self).spec_nx() - 1),
                    clamp_int(qy as int, 0, old(self).spec_ny() - 1),
                    old(self).spec_nx() as int,
                ),
                old(self).spec_buckets()[flat_index(
                    clamp_int(qx as int, 0, old(self).spec_nx() - 1),
                    clamp_int(qy as int, 0, old(self).spec_ny() - 1),
                    old(self).spec_nx() as int,
                )].push(idx),
            ),
    {
        proof {
            use_type_invariant(&*self);
        }
        let (cx, cy) = self.cell(qx, qy);
        proof {
            lemma_flat_index_in_range(cx as int, cy as int, self.nx as int, self.ny as int);
        }
        let k = cy * self.nx + cx;
        self.buckets[k].push(idx);
        assert(self.spec_buckets() =~= old(self).spec_buckets().update(
            k as int,
            old(self).spec_buckets()[k as int].push(idx),
        ));
    }

    /// (Re)shape to `nx_raw × ny_raw` cells (clamped as by `reset`) and file
    /// entity `i` in the cell its quotients `quotients[i]` fall in, for every
    /// entity in index order.
    pub fn rebuild(&mut self, nx_raw: usize, ny_raw: usize, quotients: &Vec<(isize, isize)>)
        requires
            quotients@.len() <= u32::MAX as nat + 1,
        ensures
            final(self).spec_nx() == clamp_int(nx_raw as int, MIN_CELLS as int, MAX_CELLS as int),
            final(self).spec_ny() == clamp_int(ny_raw as int, MIN_CELLS as int, MAX_CELLS as int),
            final(self).spec_buckets().len() == final(self).spec_nx() * final(self).spec_ny(),
            forall|b: int|
                0 <= b < final(self).spec_buckets().len() ==> final(self).spec_buckets()[b] == filed(
                    quotients@,
                    final(self).spec_nx() as int,
                    final(self).spec_ny() as int,
                    b,
                ),
    {
        self.reset(nx_raw, ny_raw);
        let ghost nx = self.spec_nx() as int;
        let ghost ny = self.spec_ny() as int;
        let ghost qs = quotients@;
        assert forall|b: int| 0 <= b < self.spec_buckets().len() implies self.spec_buckets()[b]
            == filed(qs.take(0), nx, ny, b) by {}
        let mut i: usize = 0;
        while i < quotients.len()
            invariant
                qs == quotients@,
                qs.len() <= u32::MAX as nat + 1,
                i <= qs.len(),
                self.is_shaped(),
                self.spec_nx() == nx,
                self.spec_ny() == ny,
                nx == clamp_int(nx_raw as int, MIN_CELLS as int, MAX_CELLS as int),
                ny == clamp_int(ny_raw as int, MIN_CELLS as int, MAX_CELLS as int),
                self.spec_buckets().len() == nx * ny,
                forall|b: int|
                    0 <= b < self.spec_buckets().len() ==> self.spec_buckets()[b] == filed(
                        qs.take(i as int),
                        nx,
                        ny,
                        b,
                    ),
            decreases qs.len() - i,
        {
            let (qx, qy) = quotients[i];
            let ghost before = self.spec_buckets();
            let ghost k = cell_index((qx, qy), nx, ny);
            proof {
                lemma_flat_index_in_range(
                    clamp_int(qx as int, 0, nx - 1),
                    clamp_int(qy as int, 0, ny - 1),
                    nx,
                    ny,
                );
            }
            self.insert(qx, qy, i as u32);
            assert(qs.take(i as int + 1).drop_last() =~= qs.take(i as int));
            assert(qs.take(i as int + 1).last() == (qx, qy));
            assert forall|b: int| 0 <= b < self.spec_buckets().len() implies self.spec_buckets()[b]
                == filed(qs.take(i as int + 1), nx, ny, b) by {
                if b == k {
                    assert(self.spec_buckets()[b] == before[b].push(i as u32));
                    assert(before[b].push(i as u32) =~= filed(qs.take(i as int), nx, ny, b) + seq![i as u32]);
                } else {
                    assert(filed(qs.take(i as int), nx, ny, b) + Seq::<u32>::empty() =~= filed(
                        qs.take(i as int),
                        nx,
                        ny,
                        b,
                    ));
                }
            }
            i = i + 1;
        }
        assert(qs.take(qs.len() as int) =~= qs);
    }

    /// Every entry in the wrapped 3×3 cell neighbourhood of the cell that
    /// `(qx, qy)` fall in, in deterministic order: the nine buckets in
    /// `neighborhood` order, each in insertion order.
    pub fn neighbors(&self, qx: isize, qy: isize) -> (r: Vec<u32>)
        requires
            self.is_shaped(),
        ensures
            r@ == gather(
                self.spec_buckets(),
                neighborhood(
                    clamp_int(qx as int, 0, self.spec_nx() - 1),
                    clamp_int(qy as int, 0, self.spec_ny() - 1),
                    self.spec_nx() as int,
                    self.spec_ny() as int,
                ),
            ),
    {
        proof {
            use_type_invariant(self);
        }
        let (cx, cy) = self.cell(qx, qy);
        let ghost cells = neighborhood(cx as int, cy as int, self.nx as int, self.ny as int);
        let ghost bs = self.spec_buckets();
        let mut out: Vec<u32> = Vec::new();
        let mut k: usize = 0;
        while k < 9
            invariant
                k <= 9,
                cx < self.nx,
                cy < self.ny,
                MIN_CELLS <= self.nx <= MAX_CELLS,
                MIN_CELLS <= self.ny <= MAX_CELLS,
                self.buckets@.len() == self.nx * self.ny,
                bs == self.spec_buckets(),
                cells == neighborhood(cx as int, cy as int, self.nx as int, self.ny as int),
                out@ == gather(bs, cells.take(k as int)),
            decreases 9 - k,
        {
            let gx = wrap_step(cx, k % 3, self.nx);
            let gy = wrap_step(cy, k / 3, self.ny);
            proof {
                lemma_flat_index_in_range(gx as int, gy as int, self.nx as int, self.ny as int);
            }
            let cell = gy * self.nx + gx;
            assert(cell as int == cells[k as int]);
            let bucket = &self.buckets[cell];
            assert(bucket@ == bs[cell as int]);
            let ghost before = out@;
            let mut j: usize = 0;
            while j < bucket.len()
                invariant
                    j <= bucket@.len(),
                    out@ == before + bucket@.take(j as int),
                decreases bucket@.len() - j,
            {
                out.push(bucket[j]);
                j = j + 1;
                assert(out@ =~= before + bucket@.take(j as int));
            }
            assert(bucket@.take(j as int) =~= bucket@);
            assert(cells.take(k as int + 1).drop_last() =~= cells.take(k as int));
            k = k + 1;
        }
        assert(cells.take(9) =~= cells);
        out
    }
}

impl Default for Grid {
    /// An unshaped grid with no cells.
    fn default() -> (g: Grid)
        ensures
            g.spec_nx() == 0,
            g.spec_ny() == 0,
            g.spec_buckets() == Seq::<Seq<u32>>::empty(),
    {
        Grid::new()
    }
}

} // verus!
