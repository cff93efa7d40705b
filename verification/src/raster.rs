//! The integer core of the renderers: stamping filled discs of palette
//! indices into an indexed frame whose edges wrap around, as the world
//! does, and compressing the finished frame for the GIF encoder; and
//! plotting glyphs into the terminal's character grid.

use crate::grid::wrap_index;
use vstd::arithmetic::div_mod::lemma_fundamental_div_mod_converse;
use vstd::prelude::*;

verus! {

/// `(dx, dy)` is an offset inside the disc of radius `r`.
pub open spec fn in_disc(dx: int, dy: int, r: int) -> bool {
    -r <= dx <= r && -r <= dy <= r && dx * dx + dy * dy <= r * r
}

/// Pixel `(px, py)` of a `w × h` frame is hit by some offset of the disc of
/// radius `r` around `(cx, cy)` that comes before row `ey`, column `ex` in
/// row-major order (rows from the top, each from the left).
pub open spec fn covered_before(
    cx: int,
    cy: int,
    r: int,
    w: int,
    h: int,
    ey: int,
    ex: int,
    px: int,
    py: int,
) -> bool {
    exists|dx: int, dy: int|
        #![trigger in_disc(dx, dy, r), wrap_index(cx + dx, w), wrap_index(cy + dy, h)]
        in_disc(dx, dy, r) && (dy < ey || (dy == ey && dx < ex)) && wrap_index(cx + dx, w) == px
            && wrap_index(cy + dy, h) == py
}

/// Pixel `(px, py)` of a `w × h` frame lies under the disc of radius `r`
/// around `(cx, cy)`, with the frame's edges wrapping.
pub open spec fn covered(cx: int, cy: int, r: int, w: int, h: int, px: int, py: int) -> bool {
    covered_before(cx, cy, r, w, h, r + 1, -r, px, py)
}

/// `v` wrapped onto `[0, n)`.
fn wrap_i32(v: i32, n: i32) -> (r: i32)
    requires
        n > 0,
    ensures
        r == wrap_index(v as int, n as int),
        0 <= r < n,
{
    proof {
        let m = v as int % n as int;
        assert(0 <= m < n);
        assert(m + n == 1 * (n as int) + m);
        lemma_fundamental_div_mod_converse(m + n, n as int, 1, m);
    }
    match v.checked_rem_euclid(n) {
        Some(r) => r,
        None => 0,
    }
}

/// Passing one more offset `(ex, ey)` adds exactly the pixel it hits (if
/// it lies in the disc).
proof fn lemma_cover_step(cx: int, cy: int, r: int, w: int, h: int, ey: int, ex: int, px: int, py: int)
    ensures
        covered_before(cx, cy, r, w, h, ey, ex + 1, px, py) <==> (covered_before(
            cx,
            cy,
            r,
            w,
            h,
            ey,
            ex,
            px,
            py,
        ) || (in_disc(ex, ey, r) && wrap_index(cx + ex, w) == px && wrap_index(cy + ey, h) == py)),
{
    if covered_before(cx, cy, r, w, h, ey, ex + 1, px, py) {
        let (dx, dy) = choose|dx: int, dy: int|
            #![trigger in_disc(dx, dy, r), wrap_index(cx + dx, w), wrap_index(cy + dy, h)]
            in_disc(dx, dy, r) && (dy < ey || (dy == ey && dx < ex + 1)) && wrap_index(cx + dx, w)
                == px && wrap_index(cy + dy, h) == py;
        if !(dy == ey && dx == ex) {
            assert(in_disc(dx, dy, r) && wrap_index(cx + dx, w) == px && wrap_index(cy + dy, h) == py);
        }
    }
    if in_disc(ex, ey, r) && wrap_index(cx + ex, w) == px && wrap_index(cy + ey, h) == py {
        assert(in_disc(ex, ey, r) && wrap_index(cx + ex, w) == px && wrap_index(cy + ey, h) == py);
    }
    if covered_before(cx, cy, r, w, h, ey, ex, px, py) {
        let (dx, dy) = choose|dx: int, dy: int|
            #![trigger in_disc(dx, dy, r), wrap_index(cx + dx, w), wrap_index(cy + dy, h)]
            in_disc(dx, dy, r) && (dy < ey || (dy == ey && dx < ex)) && wrap_index(cx + dx, w) == px
                && wrap_index(cy + dy, h) == py;
        assert(in_disc(dx, dy, r) && wrap_index(cx + dx, w) == px && wrap_index(cy + dy, h) == py);
    }
}

/// Finishing a row is starting the next one.
proof fn lemma_cover_row(cx: int, cy: int, r: int, w: int, h: int, ey: int, px: int, py: int)
    ensures
        covered_before(cx, cy, r, w, h, ey, r + 1, px, py) <==> covered_before(
            cx,
            cy,
            r,
            w,
            h,
            ey + 1,
            -r,
            px,
            py,
        ),
{
    if covered_before(cx, cy, r, w, h, ey, r + 1, px, py) {
        let (dx, dy) = choose|dx: int, dy: int|
            #![trigger in_disc(dx, dy, r), wrap_index(cx + dx, w), wrap_index(cy + dy, h)]
            in_disc(dx, dy, r) && (dy < ey || (dy == ey && dx < r + 1)) && wrap_index(cx + dx, w)
                == px && wrap_index(cy + dy, h) == py;
        assert(in_disc(dx, dy, r) && wrap_index(cx + dx, w) == px && wrap_index(cy + dy, h) == py);
    }
    if covered_before(cx, cy, r, w, h, ey + 1, -r, px, py) {
        let (dx, dy) = choose|dx: int, dy: int|
            #![trigger in_disc(dx, dy, r), wrap_index(cx + dx, w), wrap_index(cy + dy, h)]
            in_disc(dx, dy, r) && (dy < ey + 1 || (dy == ey + 1 && dx < -r)) && wrap_index(cx + dx, w)
                == px && wrap_index(cy + dy, h) == py;
        assert(in_disc(dx, dy, r) && wrap_index(cx + dx, w) == px && wrap_index(cy + dy, h) == py);
    }
}

/// Nothing is covered before the first row.
proof fn lemma_cover_none(cx: int, cy: int, r: int, w: int, h: int, px: int, py: int)
    ensures
        !covered_before(cx, cy, r, w, h, -r, -r, px, py),
{
}

/// Pixel `p` of a frame `w` wide sits at column `p % w`, row `p / w`.
proof fn lemma_pixel_coords(p: int, px: int, py: int, w: int)
    requires
        w > 0,
        0 <= px < w,
        0 <= p,
        0 <= py,
    ensures
        (p == py * w + px) <==> (p % w == px && p / w == py),
{
    if p == py * w + px {
        lemma_fundamental_div_mod_converse(p, w, py, px);
    }
    if p % w == px && p / w == py {
        vstd::arithmetic::div_mod::lemma_fundamental_div_mod(p, w);
        assert(w * (p / w) == py * w) by (nonlinear_arith)
            requires
                p / w == py,
        ;
    }
}

/// Paint every pixel under the disc of radius `r` around `(cx, cy)` with
/// palette index `idx`, in a `w × h` indexed frame (the first `w · h`
/// bytes of `buf`) whose edges wrap; every other byte is left as it was. A
/// negative radius paints nothing.
pub fn dot(buf: &mut Vec<u8>, w: i32, h: i32, cx: i32, cy: i32, r: i32, idx: u8)
    requires
        w > 0,
        h > 0,
        old(buf)@.len() >= w * h,
        w * h <= i32::MAX,
        r > i32::MIN,
        r >= 0 ==> 2 * r * r <= i32::MAX,
        r >= 0 ==> i32::MIN <= cx - r,
        r >= 0 ==> cx + r <= i32::MAX,
        r >= 0 ==> i32::MIN <= cy - r,
        r >= 0 ==> cy + r <= i32::MAX,
    ensures
        final(buf)@.len() == old(buf)@.len(),
        forall|p: int|
            0 <= p < old(buf)@.len() ==> #[trigger] final(buf)@[p] == if covered(
                cx as int,
                cy as int,
                r as int,
                w as int,
                h as int,
                p % (w as int),
                p / (w as int),
            ) {
                idx
            } else {
                old(buf)@[p]
            },
{
    let ghost old_buf = buf@;
    let ghost (ci, cj, ri, wi, hi) = (cx as int, cy as int, r as int, w as int, h as int);
    if r < 0 {
        assert forall|p: int| 0 <= p < old_buf.len() implies !#[trigger] covered(ci, cj, ri, wi, hi, p % wi, p / wi) by {}
        return;
    }
    assert forall|p: int| 0 <= p < old_buf.len() implies #[trigger] buf@[p] == if covered_before(
        ci,
        cj,
        ri,
        wi,
        hi,
        -ri,
        -ri,
        p % wi,
        p / wi,
    ) {
        idx
    } else {
        old_buf[p]
    } by {
        lemma_cover_none(ci, cj, ri, wi, hi, p % wi, p / wi);
    }
    assert(r <= 32767) by (nonlinear_arith)
        requires
            0 <= r,
            2 * r * r <= i32::MAX,
    ;
    let mut dy: i32 = -r;
    while dy <= r
        invariant
            ci == cx,
            cj == cy,
            ri == r,
            wi == w,
            hi == h,
            w > 0,
            h > 0,
            0 <= r <= 32767,
            2 * r * r <= i32::MAX,
            i32::MIN <= cx - r,
            cx + r <= i32::MAX,
            i32::MIN <= cy - r,
            cy + r <= i32::MAX,
            w * h <= i32::MAX,
            -r <= dy <= r + 1,
            buf@.len() == old_buf.len(),
            old_buf.len() >= w * h,
            forall|p: int|
                0 <= p < old_buf.len() ==> #[trigger] buf@[p] == if covered_before(
                    ci,
                    cj,
                    ri,
                    wi,
                    hi,
                    dy as int,
                    -ri,
                    p % wi,
                    p / wi,
                ) {
                    idx
                } else {
                    old_buf[p]
                },
        decreases r + 1 - dy,
    {
        let mut dx: i32 = -r;
        while dx <= r
            invariant
                ci == cx,
                cj == cy,
                ri == r,
                wi == w,
                hi == h,
                w > 0,
                h > 0,
                0 <= r <= 32767,
                2 * r * r <= i32::MAX,
                i32::MIN <= cx - r,
                cx + r <= i32::MAX,
                i32::MIN <= cy - r,
                cy + r <= i32::MAX,
                w * h <= i32::MAX,
                -r <= dy <= r,
                -r <= dx <= r + 1,
                buf@.len() == old_buf.len(),
                old_buf.len() >= w * h,
                forall|p: int|
                    0 <= p < old_buf.len() ==> #[trigger] buf@[p] == if covered_before(
                        ci,
                        cj,
                        ri,
                        wi,
                        hi,
                        dy as int,
                        dx as int,
                        p % wi,
                        p / wi,
                    ) {
                        idx
                    } else {
                        old_buf[p]
                    },
            decreases r + 1 - dx,
        {
            assert(0 <= dx * dx <= r * r && 0 <= dy * dy <= r * r && r * r <= 2 * r * r && dx * dx
                + dy * dy <= 2 * r * r) by (nonlinear_arith)
                requires
                    -r <= dx <= r,
                    -r <= dy <= r,
            ;
            let hit = dx * dx + dy * dy <= r * r;
            if hit {
                let px = wrap_i32(cx + dx, w);
                let py = wrap_i32(cy + dy, h);
                assert(0 <= py * w + px < w * h) by (nonlinear_arith)
                    requires
                        0 <= px < w,
                        0 <= py < h,
                ;
                let k = (py * w + px) as usize;
                let ghost before = buf@;
                buf.set(k, idx);
                assert forall|p: int| 0 <= p < old_buf.len() implies #[trigger] buf@[p] == if covered_before(
                    ci,
                    cj,
                    ri,
                    wi,
                    hi,
                    dy as int,
                    dx as int + 1,
                    p % wi,
                    p / wi,
                ) {
                    idx
                } else {
                    old_buf[p]
                } by {
                    lemma_cover_step(ci, cj, ri, wi, hi, dy as int, dx as int, p % wi, p / wi);
                    lemma_pixel_coords(p, px as int, py as int, wi);
                    assert(in_disc(dx as int, dy as int, ri));
                }
            } else {
                assert forall|p: int| 0 <= p < old_buf.len() implies #[trigger] buf@[p] == if covered_before(
                    ci,
                    cj,
                    ri,
                    wi,
                    hi,
                    dy as int,
                    dx as int + 1,
                    p % wi,
                    p / wi,
                ) {
                    idx
                } else {
                    old_buf[p]
                } by {
                    lemma_cover_step(ci, cj, ri, wi, hi, dy as int, dx as int, p % wi, p / wi);
                    assert(!in_disc(dx as int, dy as int, ri));
                }
            }
            dx = dx + 1;
        }
        assert forall|p: int| 0 <= p < old_buf.len() implies #[trigger] buf@[p] == if covered_before(
            ci,
            cj,
            ri,
            wi,
            hi,
            dy as int + 1,
            -ri,
            p % wi,
            p / wi,
        ) {
            idx
        } else {
            old_buf[p]
        } by {
            lemma_cover_row(ci, cj, ri, wi, hi, dy as int, p % wi, p / wi);
        }
        dy = dy + 1;
    }
}

/// A disc to stamp: centre `(cx, cy)` in frame pixels, radius `r`, palette
/// index `idx`.
#[derive(Clone, Copy, Debug)]
pub struct Stamp {
    pub cx: i32,
    pub cy: i32,
    pub r: i32,
    pub idx: u8,
}

/// The stamp's disc arithmetic stays within `i32`.
pub open spec fn stamp_fits(s: Stamp) -> bool {
    &&& 0 <= s.r
    &&& 2 * s.r * s.r <= i32::MAX
    &&& i32::MIN <= s.cx - s.r
    &&& s.cx + s.r <= i32::MAX
    &&& i32::MIN <= s.cy - s.r
    &&& s.cy + s.r <= i32::MAX
}

/// The index pixel `(px, py)` shows after stamping `stamps` in order over
/// `base`: that of the last stamp whose disc covers it, or `base` if none
/// does.
pub open spec fn painted_pixel(base: u8, stamps: Seq<Stamp>, w: int, h: int, px: int, py: int) -> u8
    decreases stamps.len(),
{
    if stamps.len() == 0 {
        base
    } else {
        let s = stamps.last();
        if covered(s.cx as int, s.cy as int, s.r as int, w, h, px, py) {
            s.idx
        } else {
            painted_pixel(base, stamps.drop_last(), w, h, px, py)
        }
    }
}

/// The frame `bg` (row-major, `w` pixels wide) with `stamps` stamped over
/// it in order.
pub open spec fn painted(bg: Seq<u8>, stamps: Seq<Stamp>, w: int, h: int) -> Seq<u8> {
    Seq::new(bg.len(), |p: int| painted_pixel(bg[p], stamps, w, h, p % w, p / w))
}

/// A copy of the background `bg` (`w × h`, row-major) with every stamp
/// drawn over it in order, later stamps over earlier ones.
pub fn paint_frame(bg: &[u8], w: i32, h: i32, stamps: &Vec<Stamp>) -> (out: Vec<u8>)
    requires
        w > 0,
        h > 0,
        bg@.len() == w * h,
        w * h <= i32::MAX,
        forall|i: int| 0 <= i < stamps@.len() ==> stamp_fits(#[trigger] stamps@[i]),
    ensures
        out@ == painted(bg@, stamps@, w as int, h as int),
{
    let mut buf: Vec<u8> = Vec::new();
    let mut j: usize = 0;
    while j < bg.len()
        invariant
            j <= bg@.len(),
            buf@ == bg@.take(j as int),
        decreases bg@.len() - j,
    {
        buf.push(bg[j]);
        j = j + 1;
        assert(buf@ =~= bg@.take(j as int));
    }
    assert(buf@ =~= painted(bg@, stamps@.take(0), w as int, h as int));
    let mut i: usize = 0;
    while i < stamps.len()
        invariant
            w > 0,
            h > 0,
            bg@.len() == w * h,
            w * h <= i32::MAX,
            forall|k: int| 0 <= k < stamps@.len() ==> stamp_fits(#[trigger] stamps@[k]),
            i <= stamps@.len(),
            buf@ == painted(bg@, stamps@.take(i as int), w as int, h as int),
        decreases stamps@.len() - i,
    {
        let s = stamps[i];
        assert(stamp_fits(stamps@[i as int]));
        let ghost before = buf@;
        dot(&mut buf, w, h, s.cx, s.cy, s.r, s.idx);
        assert(stamps@.take(i as int + 1).drop_last() =~= stamps@.take(i as int));
        assert(stamps@.take(i as int + 1).last() == s);
        assert(buf@ =~= painted(bg@, stamps@.take(i as int + 1), w as int, h as int));
        i = i + 1;
    }
    assert(stamps@.take(stamps@.len() as int) =~= stamps@);
    buf
}

/// The largest byte of `s` (0 for an empty sequence).
pub open spec fn max_byte(s: Seq<u8>) -> u8
    decreases s.len(),
{
    if s.len() == 0 {
        0
    } else {
        let m = max_byte(s.drop_last());
        if s.last() > m {
            s.last()
        } else {
            m
        }
    }
}

/// The GIF minimum LZW code size for frames whose largest index is `m`:
/// enough bits for a palette of `m + 1` entries, and never below 2.
pub open spec fn min_code_size(m: u8) -> u8 {
    if m < 4 {
        2
    } else if m < 8 {
        3
    } else if m < 16 {
        4
    } else if m < 32 {
        5
    } else if m < 64 {
        6
    } else if m < 128 {
        7
    } else {
        8
    }
}

/// What `gif::Frame::make_lzw_pre_encoded` turns a frame's index buffer
/// `pixels` into: its minimum code size, then its LZW data.
pub uninterp spec fn lzw_pre_encoded(pixels: Seq<u8>) -> Seq<u8>;

/// Calls `gif::Frame::make_lzw_pre_encoded` on a frame holding `pixels`
/// and hands back the compressed buffer. Trusted: the result is
/// `lzw_pre_encoded(pixels)`, and its first byte is the minimum code size
/// that the crate's `lzw_encode` writes there, which depends only on the
/// largest index.
#[verifier::external_body]
fn lzw_pre_encode(pixels: Vec<u8>) -> (out: Vec<u8>)
    ensures
        out@ == lzw_pre_encoded(pixels@),
        out@.len() >= 1,
        out@[0] == min_code_size(max_byte(pixels@)),
{
    let mut frame = gif::Frame::default();
    frame.buffer = std::borrow::Cow::Owned(pixels);
    frame.make_lzw_pre_encoded();
    frame.buffer.into_owned()
}

/// A frame ready for `gif::Encoder::write_lzw_pre_encoded_frame`: the
/// stamps painted over the background, then LZW-compressed. Its leading
/// minimum code size is always one the encoder accepts (2 to 11).
pub fn encoded_frame(bg: &[u8], w: i32, h: i32, stamps: &Vec<Stamp>) -> (out: Vec<u8>)
    requires
        w > 0,
        h > 0,
        bg@.len() == w * h,
        w * h <= i32::MAX,
        forall|i: int| 0 <= i < stamps@.len() ==> stamp_fits(#[trigger] stamps@[i]),
    ensures
        out@ == lzw_pre_encoded(painted(bg@, stamps@, w as int, h as int)),
        out@.len() >= 1,
        out@[0] == min_code_size(max_byte(painted(bg@, stamps@, w as int, h as int))),
        2 <= out@[0] <= 11,
{
    let pixels = paint_frame(bg, w, h, stamps);
    lzw_pre_encode(pixels)
}

/// A coloured glyph in the terminal's character grid.
#[derive(Clone, Copy, Debug, PartialEq, Eq, Structural)]
pub struct TextCell {
    pub glyph: char,
    pub r: u8,
    pub g: u8,
    pub b: u8,
}

/// A glyph to plot at column `x`, row `y` (clamped onto the grid).
#[derive(Clone, Copy, Debug)]
pub struct Plot {
    pub x: usize,
    pub y: usize,
    pub cell: TextCell,
}

/// `v` clamped to at most `hi`.
pub open spec fn at_most(v: int, hi: int) -> int {
    if v > hi {
        hi
    } else {
        v
    }
}

/// What cell `(cx, cy)` of a grid `cols × rows` shows after `plots` in
/// order: the glyph of the last plot that lands there, or nothing.
pub open spec fn shown_at(plots: Seq<Plot>, cols: int, rows: int, cx: int, cy: int) -> Option<TextCell>
    decreases plots.len(),
{
    if plots.len() == 0 {
        None
    } else {
        let p = plots.last();
        if at_most(p.x as int, cols - 1) == cx && at_most(p.y as int, rows - 1) == cy {
            Some(p.cell)
        } else {
            shown_at(plots.drop_last(), cols, rows, cx, cy)
        }
    }
}

/// The terminal picture: `rows` lines (at least one) of `cols` cells,
/// row-major, each showing the last of `plots` that lands on it; a plot
/// beyond the right or bottom edge lands on the last column or row.
pub fn plot_cells(cols: u16, rows: u16, plots: &Vec<Plot>) -> (grid: Vec<Option<TextCell>>)
    requires
        plots@.len() > 0 ==> cols >= 1,
    ensures
        grid@.len() == cols * (if rows == 0 {
            1
        } else {
            rows as int
        }),
        forall|p: int|
            0 <= p < grid@.len() ==> #[trigger] grid@[p] == shown_at(
                plots@,
                cols as int,
                if rows == 0 {
                    1
                } else {
                    rows as int
                },
                p % (cols as int),
                p / (cols as int),
            ),
{
    let cols = cols as usize;
    let rows: usize = if rows == 0 {
        1
    } else {
        rows as usize
    };
    assert(cols * rows <= 0xffff * 0xffff) by (nonlinear_arith)
        requires
            cols <= 0xffff,
            rows <= 0xffff,
    ;
    let total = cols * rows;
    let mut grid: Vec<Option<TextCell>> = Vec::new();
    let mut k: usize = 0;
    while k < total
        invariant
            k <= total,
            grid@.len() == k,
            forall|p: int| 0 <= p < k ==> #[trigger] grid@[p] == None::<TextCell>,
        decreases total - k,
    {
        grid.push(None);
        k = k + 1;
    }
    let mut i: usize = 0;
    while i < plots.len()
        invariant
            total == cols * rows,
            rows >= 1,
            cols <= 0xffff,
            rows <= 0xffff,
            plots@.len() > 0 ==> cols >= 1,
            i <= plots@.len(),
            grid@.len() == total,
            forall|p: int|
                0 <= p < total ==> #[trigger] grid@[p] == shown_at(
                    plots@.take(i as int),
                    cols as int,
                    rows as int,
                    p % (cols as int),
                    p / (cols as int),
                ),
        decreases plots@.len() - i,
    {
        let pl = plots[i];
        let cx = if pl.x > cols - 1 {
            cols - 1
        } else {
            pl.x
        };
        let cy = if pl.y > rows - 1 {
            rows - 1
        } else {
            pl.y
        };
        assert(0 <= cy * cols + cx < cols * rows) by (nonlinear_arith)
            requires
                cx < cols,
                cy < rows,
        ;
        let k = cy * cols + cx;
        grid.set(k, Some(pl.cell));
        assert(plots@.take(i as int + 1).drop_last() =~= plots@.take(i as int));
        assert(plots@.take(i as int + 1).last() == pl);
        assert forall|p: int| 0 <= p < total implies #[trigger] grid@[p] == shown_at(
            plots@.take(i as int + 1),
            cols as int,
            rows as int,
            p % (cols as int),
            p / (cols as int),
        ) by {
            lemma_pixel_coords(p, cx as int, cy as int, cols as int);
        }
        i = i + 1;
    }
    assert(plots@.take(plots@.len() as int) =~= plots@);
    grid
}

} // verus!
