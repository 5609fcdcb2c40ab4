use vstd::prelude::*;

verus! {

/// Subpixel samples per side of a pixel when estimating coverage.
pub const SAMPLES: i32 = 4;

/// The largest pixel offset from a circle's centre, or circle radius, the
/// coverage arithmetic is sized for.
pub const REACH: i32 = 0x40_0000;

/// The largest ellipse radius, and offset from its centre, the ellipse
/// coverage arithmetic is sized for.
pub const ELLIPSE_REACH: i32 = 0x800;

/// How many of the samples `(sx, sy)`, `0 <= sx < cols`, of row `sy` satisfy
/// `inside`.
pub open spec fn count_cols(inside: spec_fn(int, int) -> bool, sy: int, cols: int) -> nat
    decreases cols,
{
    if cols <= 0 {
        0
    } else {
        count_cols(inside, sy, cols - 1) + if inside(cols - 1, sy) { 1nat } else { 0nat }
    }
}

/// How many of the samples in rows `0 <= sy < rows`, `SAMPLES` to a row,
/// satisfy `inside`.
pub open spec fn count_grid(inside: spec_fn(int, int) -> bool, rows: int) -> nat
    decreases rows,
{
    if rows <= 0 {
        0
    } else {
        count_grid(inside, rows - 1) + count_cols(inside, rows - 1, SAMPLES as int)
    }
}

proof fn lemma_count_cols_bound(inside: spec_fn(int, int) -> bool, sy: int, cols: int)
    ensures count_cols(inside, sy, cols) <= if cols < 0 { 0 } else { cols },
    decreases cols,
{
    if cols > 0 {
        lemma_count_cols_bound(inside, sy, cols - 1);
    }
}

proof fn lemma_count_grid_bound(inside: spec_fn(int, int) -> bool, rows: int)
    ensures count_grid(inside, rows) <= if rows < 0 { 0 } else { rows * SAMPLES },
    decreases rows,
{
    if rows > 0 {
        lemma_count_grid_bound(inside, rows - 1);
        lemma_count_cols_bound(inside, rows - 1, SAMPLES as int);
    }
}

/// The offset, in 256ths of a pixel, of sample `s` of a pixel `d` pixels from
/// a centre: samples sit at the middle of a `SAMPLES` by `SAMPLES` grid,
/// 64 256ths apart.
pub open spec fn sample_at(d: int, s: int) -> int {
    d * 256 + s * 64 + 32
}

/// Sample `(sx, sy)` of the pixel `(dx, dy)` from a circle's centre lies
/// strictly inside a circle whose squared radius, in 256ths, is `r2`.
pub open spec fn in_circle(dx: int, dy: int, r2: int) -> spec_fn(int, int) -> bool {
    |sx: int, sy: int| sample_at(dx, sx) * sample_at(dx, sx) + sample_at(dy, sy) * sample_at(dy, sy) < r2
}

/// A sample count out of the whole grid, scaled to 0..=255.
pub open spec fn scale_hits(hits: nat) -> u8 {
    ((hits * 255) / (SAMPLES * SAMPLES) as nat) as u8
}

/// How much of pixel (`px`, `py`) a circle of radius `r` centred on (`cx`,
/// `cy`) covers, from 0 to 255: pixels whose centre is beyond the radius by
/// more than half a diagonal are empty, those inside it by as much are full,
/// and the rest are sampled on the subpixel grid.
pub open spec fn circle_coverage_spec(px: int, py: int, cx: int, cy: int, r: int) -> u8 {
    let r256 = r * 256;
    let dx = (px - cx) * 256 + 128;
    let dy = (py - cy) * 256 + 128;
    let d2 = dx * dx + dy * dy;
    let outer = r256 + 181;
    let inner = if r256 - 181 >= 0 { r256 - 181 } else { 0 };
    if d2 >= outer * outer {
        0
    } else if d2 <= inner * inner {
        255
    } else {
        scale_hits(count_grid(in_circle(px - cx, py - cy, r256 * r256), SAMPLES as int))
    }
}

/// Cauchy-Schwarz in the plane: a dot product squared is at most the
/// product of the squared lengths.
proof fn lemma_cauchy(a: int, b: int, x: int, y: int)
    ensures (a * x + b * y) * (a * x + b * y) <= (a * a + b * b) * (x * x + y * y),
{
    let (ax, by, ay, bx) = (a * x, b * y, a * y, b * x);
    let (aa, bb, xx, yy) = (a * a, b * b, x * x, y * y);
    assert((aa + bb) * (xx + yy) == aa * xx + aa * yy + bb * xx + bb * yy) by (nonlinear_arith);
    assert(aa * xx == ax * ax) by (nonlinear_arith) requires aa == a * a, xx == x * x, ax == a * x;
    assert(aa * yy == ay * ay) by (nonlinear_arith) requires aa == a * a, yy == y * y, ay == a * y;
    assert(bb * xx == bx * bx) by (nonlinear_arith) requires bb == b * b, xx == x * x, bx == b * x;
    assert(bb * yy == by * by) by (nonlinear_arith) requires bb == b * b, yy == y * y, by == b * y;
    assert((ax + by) * (ax + by) == ax * ax + 2 * (ax * by) + by * by) by (nonlinear_arith);
    assert((ay - bx) * (ay - bx) == ay * ay - 2 * (ay * bx) + bx * bx) by (nonlinear_arith);
    assert(ax * by == ay * bx) by (nonlinear_arith)
        requires ax == a * x, by == b * y, ay == a * y, bx == b * x;
    assert((ay - bx) * (ay - bx) >= 0) by (nonlinear_arith);
}

/// Squares order nonnegative numbers.
proof fn lemma_square_order(p: int, m: int)
    requires 0 <= p, 0 <= m, p * p <= m * m,
    ensures p <= m,
{
    if p > m {
        assert(p * p > m * m) by (nonlinear_arith) requires p > m, m >= 0;
    }
}

/// A point `e` away from `v`, with `e` shorter than the half diagonal of a
/// pixel, is outside a circle of radius `rr` when `v` is beyond it by the
/// half diagonal, and inside when `v` is within it by as much.
proof fn lemma_near_point(vx: int, vy: int, ex: int, ey: int, rr: int)
    requires
        0 <= rr,
        -96 <= ex <= 96,
        -96 <= ey <= 96,
    ensures
        vx * vx + vy * vy >= (rr + 181) * (rr + 181) ==> (vx + ex) * (vx + ex) + (vy + ey) * (vy + ey) >= rr * rr,
        rr >= 181 && vx * vx + vy * vy <= (rr - 181) * (rr - 181)
            ==> (vx + ex) * (vx + ex) + (vy + ey) * (vy + ey) < rr * rr,
{
    let e2 = ex * ex + ey * ey;
    assert(0 <= e2 <= 18432) by (nonlinear_arith) requires -96 <= ex <= 96, -96 <= ey <= 96, e2 == ex * ex + ey * ey;
    let sx = vx + ex;
    let sy = vy + ey;
    let s2 = sx * sx + sy * sy;
    let v2 = vx * vx + vy * vy;
    assert(s2 >= 0 && v2 >= 0) by (nonlinear_arith) requires s2 == sx * sx + sy * sy, v2 == vx * vx + vy * vy;
    // Outside: were the sample inside, the point would be within reach.
    if v2 >= (rr + 181) * (rr + 181) && s2 < rr * rr {
        // v = s - e, so |v|^2 = |s|^2 - 2 s.e + |e|^2.
        let dot = sx * ex + sy * ey;
        assert(v2 == s2 - 2 * dot + e2) by (nonlinear_arith)
            requires v2 == vx * vx + vy * vy, s2 == sx * sx + sy * sy, e2 == ex * ex + ey * ey,
                sx == vx + ex, sy == vy + ey, dot == sx * ex + sy * ey;
        lemma_cauchy(sx, sy, ex, ey);
        let p = if dot >= 0 { dot } else { -dot };
        assert(p * p == dot * dot) by (nonlinear_arith) requires p == dot || p == -dot;
        assert(p * p <= (181 * rr) * (181 * rr)) by (nonlinear_arith)
            requires p * p <= s2 * e2, 0 <= s2 < rr * rr, 0 <= e2 <= 18432, rr >= 0;
        assert(181 * rr >= 0) by (nonlinear_arith) requires rr >= 0;
        lemma_square_order(p, 181 * rr);
        assert(s2 <= rr * rr - 1);
        assert((rr + 181) * (rr + 181) == rr * rr + 362 * rr + 32761) by (nonlinear_arith);
        assert(false);
    }
    if rr >= 181 && v2 <= (rr - 181) * (rr - 181) && s2 >= rr * rr {
        let q = rr - 181;
        let dot = vx * ex + vy * ey;
        assert(s2 == v2 + 2 * dot + e2) by (nonlinear_arith)
            requires v2 == vx * vx + vy * vy, s2 == sx * sx + sy * sy, e2 == ex * ex + ey * ey,
                sx == vx + ex, sy == vy + ey, dot == vx * ex + vy * ey;
        lemma_cauchy(vx, vy, ex, ey);
        let p = if dot >= 0 { dot } else { -dot };
        assert(p * p == dot * dot) by (nonlinear_arith) requires p == dot || p == -dot;
        assert(p * p <= (136 * q) * (136 * q)) by (nonlinear_arith)
            requires p * p <= v2 * e2, 0 <= v2 <= q * q, 0 <= e2 <= 18432, q >= 0;
        assert(136 * q >= 0) by (nonlinear_arith) requires q >= 0;
        lemma_square_order(p, 136 * q);
        assert(v2 <= q * q);
        assert(rr * rr == q * q + 362 * q + 32761) by (nonlinear_arith) requires q == rr - 181;
        assert(false);
    }
}

proof fn lemma_count_cols_none(inside: spec_fn(int, int) -> bool, sy: int, cols: int)
    requires forall|sx: int| 0 <= sx < cols ==> !#[trigger] inside(sx, sy),
    ensures count_cols(inside, sy, cols) == 0,
    decreases cols,
{
    if cols > 0 {
        lemma_count_cols_none(inside, sy, cols - 1);
    }
}

proof fn lemma_count_cols_all(inside: spec_fn(int, int) -> bool, sy: int, cols: int)
    requires 0 <= cols, forall|sx: int| 0 <= sx < cols ==> #[trigger] inside(sx, sy),
    ensures count_cols(inside, sy, cols) == cols,
    decreases cols,
{
    if cols > 0 {
        lemma_count_cols_all(inside, sy, cols - 1);
    }
}

proof fn lemma_count_grid_uniform(inside: spec_fn(int, int) -> bool, rows: int, all: bool)
    requires
        0 <= rows,
        forall|sx: int, sy: int| 0 <= sx < SAMPLES && 0 <= sy < rows ==> #[trigger] inside(sx, sy) == all,
    ensures count_grid(inside, rows) == if all { rows * SAMPLES } else { 0 },
    decreases rows,
{
    if rows > 0 {
        lemma_count_grid_uniform(inside, rows - 1, all);
        if all {
            lemma_count_cols_all(inside, rows - 1, SAMPLES as int);
        } else {
            lemma_count_cols_none(inside, rows - 1, SAMPLES as int);
        }
    }
}

/// The shortcuts of `circle_coverage` are exact: a pixel it calls empty
/// has no sample inside the circle, one it calls full has every sample
/// inside, so for any circle of radius at least 0 the coverage is exactly
/// the sampled share.
pub proof fn lemma_circle_coverage_exact(px: int, py: int, cx: int, cy: int, r: int)
    requires r >= 0,
    ensures
        circle_coverage_spec(px, py, cx, cy, r)
            == scale_hits(count_grid(in_circle(px - cx, py - cy, (r * 256) * (r * 256)), SAMPLES as int)),
{
    let rr = r * 256;
    let vx = (px - cx) * 256 + 128;
    let vy = (py - cy) * 256 + 128;
    let inside = in_circle(px - cx, py - cy, rr * rr);
    let d2 = vx * vx + vy * vy;
    let outer = rr + 181;
    let inner = if rr - 181 >= 0 { rr - 181 } else { 0 };
    if d2 >= outer * outer {
        assert forall|sx: int, sy: int| 0 <= sx < SAMPLES && 0 <= sy < SAMPLES implies #[trigger] inside(sx, sy) == false by {
            lemma_near_point(vx, vy, sx * 64 + 32 - 128, sy * 64 + 32 - 128, rr);
            assert(sample_at(px - cx, sx) == vx + (sx * 64 + 32 - 128));
            assert(sample_at(py - cy, sy) == vy + (sy * 64 + 32 - 128));
        }
        lemma_count_grid_uniform(inside, SAMPLES as int, false);
    } else if d2 <= inner * inner {
        if rr - 181 < 0 {
            assert(d2 > 0) by (nonlinear_arith) requires d2 == vx * vx + vy * vy, vx == (px - cx) * 256 + 128;
        }
        assert forall|sx: int, sy: int| 0 <= sx < SAMPLES && 0 <= sy < SAMPLES implies #[trigger] inside(sx, sy) == true by {
            lemma_near_point(vx, vy, sx * 64 + 32 - 128, sy * 64 + 32 - 128, rr);
            assert(sample_at(px - cx, sx) == vx + (sx * 64 + 32 - 128));
            assert(sample_at(py - cy, sy) == vy + (sy * 64 + 32 - 128));
        }
        lemma_count_grid_uniform(inside, SAMPLES as int, true);
    }
}

/// Offsets and radii small enough for the coverage arithmetic.
pub open spec fn within_reach(d: int) -> bool {
    -REACH <= d <= REACH
}

/// Counts the samples of one pixel that `inside_exec` accepts. The loop
/// bodies below all follow this shape.
proof fn lemma_count_step(inside: spec_fn(int, int) -> bool, sy: int, sx: int)
    requires 0 <= sx, 0 <= sy,
    ensures
        count_cols(inside, sy, sx + 1) == count_cols(inside, sy, sx) + if inside(sx, sy) { 1nat } else { 0nat },
        count_grid(inside, sy + 1) == count_grid(inside, sy) + count_cols(inside, sy, SAMPLES as int),
{
}

proof fn lemma_square_bound(a: int, m: int)
    requires -m <= a <= m,
    ensures 0 <= a * a <= m * m,
{
    assert(0 <= a * a <= m * m) by (nonlinear_arith) requires -m <= a <= m;
}

/// How much of pixel (`px`, `py`) a circle of radius `r` centred on (`cx`,
/// `cy`) covers, from 0 to 255.
///
/// The convention for the whole module: a pixel with index n covers the span
/// `[n, n+1)`, and shape coordinates are the grid between pixels.
pub fn circle_coverage(px: i32, py: i32, cx: i32, cy: i32, r: i32) -> (cov: u8)
    requires
        within_reach(px - cx),
        within_reach(py - cy),
        within_reach(r as int),
    ensures cov == circle_coverage_spec(px as int, py as int, cx as int, cy as int, r as int),
{
    let r256 = r as i64 * 256;
    let dx = (px - cx) as i64 * 256 + 128;
    let dy = (py - cy) as i64 * 256 + 128;
    proof {
        lemma_square_bound(dx as int, 0x4000_0080);
        lemma_square_bound(dy as int, 0x4000_0080);
    }
    let d2 = dx * dx + dy * dy;

    let outer = r256 + 181;
    proof { lemma_square_bound(outer as int, 0x4000_00B5); }
    if d2 >= outer * outer {
        return 0;
    }
    let inner = if r256 - 181 >= 0 { r256 - 181 } else { 0 };
    proof { lemma_square_bound(inner as int, 0x4000_00B5); }
    if d2 <= inner * inner {
        return 255;
    }

    proof { lemma_square_bound(r256 as int, 0x4000_0000); }
    let r2 = r256 * r256;
    let ghost inside = in_circle(px - cx, py - cy, r256 * r256);
    let mut hit: u32 = 0;
    let mut sy: i32 = 0;
    while sy < SAMPLES
        invariant
            0 <= sy <= SAMPLES,
            r2 == r256 * r256,
            within_reach(px - cx),
            within_reach(py - cy),
            inside == in_circle(px - cx, py - cy, r256 * r256),
            hit == count_grid(inside, sy as int),
        decreases SAMPLES - sy,
    {
        let y = (py - cy) as i64 * 256 + sy as i64 * 64 + 32;
        proof { lemma_square_bound(y as int, 0x4000_0100); }
        let yy = y * y;
        let mut sx: i32 = 0;
        let ghost row_start = hit;
        proof { lemma_count_grid_bound(inside, sy as int); }
        while sx < SAMPLES
            invariant
                0 <= sx <= SAMPLES,
                0 <= sy < SAMPLES,
                r2 == r256 * r256,
                within_reach(px - cx),
                y == sample_at(py - cy, sy as int),
                yy == y * y,
                0 <= yy <= 0x4000_0100 * 0x4000_0100,
                inside == in_circle(px - cx, py - cy, r256 * r256),
                row_start == count_grid(inside, sy as int),
                row_start <= sy * SAMPLES,
                hit == row_start + count_cols(inside, sy as int, sx as int),
            decreases SAMPLES - sx,
        {
            let x = (px - cx) as i64 * 256 + sx as i64 * 64 + 32;
            proof {
                lemma_square_bound(x as int, 0x4000_0100);
                lemma_count_step(inside, sy as int, sx as int);
                lemma_count_cols_bound(inside, sy as int, sx as int);
            }
            if x * x + yy < r2 {
                hit += 1;
            }
            sx += 1;
        }
        proof { lemma_count_step(inside, sy as int, sx as int); }
        sy += 1;
    }
    proof { lemma_count_grid_bound(inside, SAMPLES as int); }
    ((hit * 255) / (SAMPLES * SAMPLES) as u32) as u8
}

/// The coordinate range drawing is sized for: positions, sizes and radii
/// of shapes, and canvas sides.
pub const COORD: i32 = 0x10_0000;

pub open spec fn small(v: int) -> bool {
    -COORD <= v <= COORD
}

/// How much of the local pixel (`lx`, `ly`) a `w` by `h` rectangle with
/// corners rounded to radius `r` covers: full in the cross between the
/// corners, the corner circle's coverage elsewhere.
pub open spec fn rounded_coverage_spec(lx: int, ly: int, w: int, h: int, r: int) -> u8 {
    let in_x_band = lx >= r && lx < w - r;
    let in_y_band = ly >= r && ly < h - r;
    if in_x_band || in_y_band {
        255
    } else {
        let cx = if lx < r { r } else { w - r };
        let cy = if ly < r { r } else { h - r };
        circle_coverage_spec(lx, ly, cx, cy, r)
    }
}

/// The arithmetic of `rounded_coverage` stays in range: the far band edges
/// fit an `i32` where they are computed, and a pixel in a corner is within
/// the coverage arithmetic's reach of its corner's centre.
pub open spec fn rounded_fits(lx: int, ly: int, w: int, h: int, r: int) -> bool {
    &&& lx >= r ==> i32::MIN <= w - r <= i32::MAX
    &&& ly >= r ==> i32::MIN <= h - r <= i32::MAX
    &&& !((lx >= r && lx < w - r) || (ly >= r && ly < h - r)) ==> {
        let cx = if lx < r { r } else { w - r };
        let cy = if ly < r { r } else { h - r };
        within_reach(lx - cx) && within_reach(ly - cy) && within_reach(r)
    }
}

pub fn rounded_coverage(lx: i32, ly: i32, w: i32, h: i32, r: i32) -> (cov: u8)
    requires rounded_fits(lx as int, ly as int, w as int, h as int, r as int),
    ensures cov == rounded_coverage_spec(lx as int, ly as int, w as int, h as int, r as int),
{
    let in_x_band = lx >= r && lx < w - r;
    let in_y_band = ly >= r && ly < h - r;
    if in_x_band || in_y_band {
        return 255;
    }
    let cx = if lx < r { r } else { w - r };
    let cy = if ly < r { r } else { h - r };
    circle_coverage(lx, ly, cx, cy, r)
}

/// Coverage of the local pixel (`lx`, `ly`) by the rounded rectangle shrunk
/// by `shrink` on every side, its radius shrunk alike.
pub open spec fn rounded_coverage_signed_spec(lx: int, ly: int, w: int, h: int, r: int, shrink: int) -> u8 {
    let inner_w = w - shrink * 2;
    let inner_h = h - shrink * 2;
    let inner_r = if r - shrink >= 0 { r - shrink } else { 0 };
    let llx = lx - shrink;
    let lly = ly - shrink;
    if llx < 0 || lly < 0 || llx >= inner_w || lly >= inner_h {
        0
    } else {
        rounded_coverage_spec(llx, lly, inner_w, inner_h, inner_r)
    }
}

pub fn rounded_coverage_signed(lx: i32, ly: i32, w: i32, h: i32, r: i32, shrink: i32) -> (cov: u8)
    requires
        small(lx as int), small(ly as int), small(w as int), small(h as int), small(r as int),
        0 <= shrink <= 1,
    ensures cov == rounded_coverage_signed_spec(lx as int, ly as int, w as int, h as int, r as int, shrink as int),
{
    let inner_w = w - shrink * 2;
    let inner_h = h - shrink * 2;
    let inner_r = if r - shrink >= 0 { r - shrink } else { 0 };
    let llx = lx - shrink;
    let lly = ly - shrink;
    if llx < 0 || lly < 0 || llx >= inner_w || lly >= inner_h {
        return 0;
    }
    rounded_coverage(llx, lly, inner_w, inner_h, inner_r)
}

/// Sample `(sx, sy)` of the pixel `(dx, dy)` from the centre lies in the ring
/// between the squared radii `inner_s` and `outer_s`, in 256ths.
pub open spec fn in_ring(dx: int, dy: int, inner_s: int, outer_s: int) -> spec_fn(int, int) -> bool {
    |sx: int, sy: int| {
        let d = sample_at(dx, sx) * sample_at(dx, sx) + sample_at(dy, sy) * sample_at(dy, sy);
        inner_s <= d && d < outer_s
    }
}

/// How much of pixel (`px`, `py`) the ring between radii `inner` and `outer`
/// around (`cx`, `cy`) covers: none for a pixel well outside the ring or
/// well inside its hole, and otherwise sampled on the subpixel grid.
pub open spec fn ring_coverage_spec(px: int, py: int, cx: int, cy: int, inner: int, outer: int) -> u8 {
    let dx_c = px - cx;
    let dy_c = py - cy;
    let coarse = dx_c * dx_c + dy_c * dy_c;
    if coarse > outer * outer + 2 * outer + 1 {
        0
    } else if inner > 1 && coarse + 2 * inner + 1 < inner * inner {
        0
    } else {
        scale_hits(count_grid(in_ring(dx_c, dy_c, inner * inner * 65536, outer * outer * 65536), SAMPLES as int))
    }
}

pub(crate) fn ring_coverage(px: i32, py: i32, cx: i32, cy: i32, inner: i64, outer: i64, inner_sq: i64, outer_sq: i64) -> (cov: u8)
    requires
        within_reach(px - cx), within_reach(py - cy),
        0 <= inner <= outer <= REACH,
        inner_sq == inner * inner,
        outer_sq == outer * outer,
    ensures cov == ring_coverage_spec(px as int, py as int, cx as int, cy as int, inner as int, outer as int),
{
    let dx_c = (px - cx) as i64;
    let dy_c = (py - cy) as i64;
    proof {
        lemma_square_bound(dx_c as int, REACH as int);
        lemma_square_bound(dy_c as int, REACH as int);
        lemma_square_bound(outer as int, REACH as int);
        lemma_square_bound(inner as int, REACH as int);
    }
    let coarse = dx_c * dx_c + dy_c * dy_c;
    if coarse > outer_sq + 2 * outer + 1 {
        return 0;
    }
    if inner > 1 && coarse + 2 * inner + 1 < inner_sq {
        return 0;
    }
    let inner_s = inner_sq * 65536;
    let outer_s = outer_sq * 65536;
    let ghost inside = in_ring(dx_c as int, dy_c as int, inner_s as int, outer_s as int);
    let mut hit: u32 = 0;
    let mut sy: i32 = 0;
    while sy < SAMPLES
        invariant
            0 <= sy <= SAMPLES,
            within_reach(dx_c as int), within_reach(dy_c as int),
            inside == in_ring(dx_c as int, dy_c as int, inner_s as int, outer_s as int),
            hit == count_grid(inside, sy as int),
        decreases SAMPLES - sy,
    {
        let dy = dy_c * 256 + sy as i64 * 64 + 32;
        proof { lemma_square_bound(dy as int, 0x4000_0100); }
        let yy = dy * dy;
        let mut sx: i32 = 0;
        let ghost row_start = hit;
        proof { lemma_count_grid_bound(inside, sy as int); }
        while sx < SAMPLES
            invariant
                0 <= sx <= SAMPLES,
                0 <= sy < SAMPLES,
                within_reach(dx_c as int),
                yy == sample_at(dy_c as int, sy as int) * sample_at(dy_c as int, sy as int),
                0 <= yy <= 0x4000_0100 * 0x4000_0100,
                inside == in_ring(dx_c as int, dy_c as int, inner_s as int, outer_s as int),
                row_start == count_grid(inside, sy as int),
                row_start <= sy * SAMPLES,
                hit == row_start + count_cols(inside, sy as int, sx as int),
            decreases SAMPLES - sx,
        {
            let dx = dx_c * 256 + sx as i64 * 64 + 32;
            proof {
                lemma_square_bound(dx as int, 0x4000_0100);
                lemma_count_step(inside, sy as int, sx as int);
                lemma_count_cols_bound(inside, sy as int, sx as int);
            }
            let d_sq = dx * dx + yy;
            if d_sq >= inner_s && d_sq < outer_s {
                hit += 1;
            }
            sx += 1;
        }
        proof { lemma_count_step(inside, sy as int, sx as int); }
        sy += 1;
    }
    proof { lemma_count_grid_bound(inside, SAMPLES as int); }
    ((hit * 255) / (SAMPLES * SAMPLES) as u32) as u8
}

/// Sample `(sx, sy)` of pixel `(dx, dy)` from the centre lies strictly inside
/// the ellipse with radii `rx`, `ry`.
pub open spec fn in_ellipse(dx: int, dy: int, rx: int, ry: int) -> spec_fn(int, int) -> bool {
    |sx: int, sy: int|
        sample_at(dx, sx) * sample_at(dx, sx) * ry * ry + sample_at(dy, sy) * sample_at(dy, sy) * rx * rx
            < rx * rx * ry * ry * 256 * 256
}

/// How much of pixel (`px`, `py`) the ellipse with radii `rx`, `ry` around
/// (`cx`, `cy`) covers: none well outside it, all well inside it, sampled in
/// between.
pub open spec fn ellipse_coverage_spec(px: int, py: int, cx: int, cy: int, rx: int, ry: int) -> u8 {
    let dx_c = px - cx;
    let dy_c = py - cy;
    let denom = rx * rx * ry * ry;
    let coarse = dx_c * dx_c * ry * ry + dy_c * dy_c * rx * rx;
    let band = 2 * rx * ry * (rx + ry);
    if coarse > denom + band {
        0
    } else if coarse < (if denom - band >= 0 { denom - band } else { 0 }) {
        255
    } else {
        scale_hits(count_grid(in_ellipse(dx_c, dy_c, rx, ry), SAMPLES as int))
    }
}

pub open spec fn ellipse_ok(d: int) -> bool {
    -ELLIPSE_REACH <= d <= ELLIPSE_REACH
}

proof fn lemma_prod_bound(a: int, b: int, ma: int, mb: int)
    requires 0 <= a <= ma, 0 <= b <= mb,
    ensures 0 <= a * b <= ma * mb,
{
    assert(0 <= a * b <= ma * mb) by (nonlinear_arith) requires 0 <= a <= ma, 0 <= b <= mb;
}

pub(crate) fn ellipse_coverage(px: i32, py: i32, cx: i32, cy: i32, rx: i64, ry: i64, denom: i64) -> (cov: u8)
    requires
        ellipse_ok(px - cx), ellipse_ok(py - cy),
        0 < rx <= ELLIPSE_REACH, 0 < ry <= ELLIPSE_REACH,
        denom == rx * rx * ry * ry,
    ensures cov == ellipse_coverage_spec(px as int, py as int, cx as int, cy as int, rx as int, ry as int),
{
    let dx_c = (px - cx) as i64;
    let dy_c = (py - cy) as i64;
    proof {
        lemma_square_bound(dx_c as int, 0x800);
        lemma_square_bound(dy_c as int, 0x800);
        lemma_prod_bound(rx as int, rx as int, 0x800, 0x800);
        lemma_prod_bound(ry as int, ry as int, 0x800, 0x800);
        lemma_prod_bound(dx_c * dx_c, ry as int, 0x40_0000, 0x800);
        lemma_prod_bound(dx_c * dx_c * ry, ry as int, 0x2_0000_0000, 0x800);
        lemma_prod_bound(dy_c * dy_c, rx as int, 0x40_0000, 0x800);
        lemma_prod_bound(dy_c * dy_c * rx, rx as int, 0x2_0000_0000, 0x800);
        lemma_prod_bound(rx * rx, ry as int, 0x40_0000, 0x800);
        lemma_prod_bound(rx * rx * ry, ry as int, 0x2_0000_0000, 0x800);
        lemma_prod_bound(2 * rx, ry as int, 0x1000, 0x800);
        lemma_prod_bound(2 * rx * ry, rx + ry, 0x80_0000, 0x1000);
    }
    let dxc2 = dx_c * dx_c * ry * ry;
    let dyc2 = dy_c * dy_c * rx * rx;
    let coarse = dxc2 + dyc2;
    let band = 2 * rx * ry * (rx + ry);
    let outer_lim = denom + band;
    if coarse > outer_lim {
        return 0;
    }
    let inner_lim = if denom - band >= 0 { denom - band } else { 0 };
    if coarse < inner_lim {
        return 255;
    }
    proof { lemma_prod_bound(denom as int, 65536, 0x1000_0000_0000, 65536); }
    let rhs = denom * 256 * 256;
    let ghost inside = in_ellipse(dx_c as int, dy_c as int, rx as int, ry as int);
    let mut hit: u32 = 0;
    let mut sy: i32 = 0;
    while sy < SAMPLES
        invariant
            0 <= sy <= SAMPLES,
            ellipse_ok(dx_c as int), ellipse_ok(dy_c as int),
            0 < rx <= ELLIPSE_REACH, 0 < ry <= ELLIPSE_REACH,
            rhs == rx * rx * ry * ry * 256 * 256,
            inside == in_ellipse(dx_c as int, dy_c as int, rx as int, ry as int),
            hit == count_grid(inside, sy as int),
        decreases SAMPLES - sy,
    {
        let dy = dy_c * 256 + sy as i64 * 64 + 32;
        proof {
            lemma_square_bound(dy as int, 0x8_0100);
            lemma_prod_bound(dy * dy, rx as int, (0x8_0100 * 0x8_0100) as int, 0x800);
            lemma_prod_bound(dy * dy * rx, rx as int, (0x8_0100 * 0x8_0100 * 0x800) as int, 0x800);
        }
        let yy = dy * dy * rx * rx;
        let mut sx: i32 = 0;
        let ghost row_start = hit;
        proof { lemma_count_grid_bound(inside, sy as int); }
        while sx < SAMPLES
            invariant
                0 <= sx <= SAMPLES,
                0 <= sy < SAMPLES,
                ellipse_ok(dx_c as int),
                0 < rx <= ELLIPSE_REACH, 0 < ry <= ELLIPSE_REACH,
                rhs == rx * rx * ry * ry * 256 * 256,
                yy == sample_at(dy_c as int, sy as int) * sample_at(dy_c as int, sy as int) * rx * rx,
                0 <= yy <= 0x8_0100 * 0x8_0100 * 0x800 * 0x800,
                inside == in_ellipse(dx_c as int, dy_c as int, rx as int, ry as int),
                row_start == count_grid(inside, sy as int),
                row_start <= sy * SAMPLES,
                hit == row_start + count_cols(inside, sy as int, sx as int),
            decreases SAMPLES - sx,
        {
            let dx = dx_c * 256 + sx as i64 * 64 + 32;
            proof {
                lemma_square_bound(dx as int, 0x8_0100);
                lemma_prod_bound(dx * dx, ry as int, (0x8_0100 * 0x8_0100) as int, 0x800);
                lemma_prod_bound(dx * dx * ry, ry as int, (0x8_0100 * 0x8_0100 * 0x800) as int, 0x800);
                lemma_count_step(inside, sy as int, sx as int);
                lemma_count_cols_bound(inside, sy as int, sx as int);
            }
            let lhs = dx * dx * ry * ry + yy;
            if lhs < rhs {
                hit += 1;
            }
            sx += 1;
        }
        proof { lemma_count_step(inside, sy as int, sx as int); }
        sy += 1;
    }
    proof { lemma_count_grid_bound(inside, SAMPLES as int); }
    ((hit * 255) / (SAMPLES * SAMPLES) as u32) as u8
}

/// 255 inside the span `start..start + len`, easing linearly to 0 over
/// `spread` pixels outside it.
pub open spec fn falloff_spec(v: int, start: int, len: int, spread: int) -> u8 {
    let d = if v < start { start - v } else if v >= start + len { v - (start + len) + 1 } else { 0 };
    if d == 0 {
        255
    } else if d >= spread {
        0
    } else {
        (255 - d * 255 / spread) as u8
    }
}

/// The arithmetic of `falloff` stays in range: the span's end, the distance
/// to it, and that distance scaled by 255 while still inside the spread fit
/// an `i32`.
pub open spec fn falloff_fits(v: int, start: int, len: int, spread: int) -> bool {
    let d = if v < start { start - v } else if v >= start + len { v - (start + len) + 1 } else { 0 };
    &&& i32::MIN <= start + len <= i32::MAX
    &&& d <= i32::MAX
    &&& 0 < d < spread ==> d * 255 <= i32::MAX
}

pub fn falloff(v: i32, start: i32, len: i32, spread: i32) -> (f: u8)
    requires falloff_fits(v as int, start as int, len as int, spread as int),
    ensures f == falloff_spec(v as int, start as int, len as int, spread as int),
{
    let d = if v < start {
        start - v
    } else if v >= start + len {
        v - (start + len) + 1
    } else {
        return 255;
    };
    if d >= spread {
        0
    } else {
        assert(0 <= (d as int) * 255 / (spread as int) <= 255) by (nonlinear_arith)
            requires 0 < d < spread;
        (255 - d * 255 / spread) as u8
    }
}

/// The first `i` in `start..end` at which `p` holds, or `end` if it holds
/// nowhere there (or `start` when the range is empty).
pub open spec fn first_from(p: spec_fn(int) -> bool, start: int, end: int) -> int
    decreases end - start,
{
    if start >= end || p(start) { start } else { first_from(p, start + 1, end) }
}

/// Column `i` of a corner of radius `r` is inside the corner circle by the
/// circle equation, the row being `dy` from the circle's centre.
pub open spec fn inside_arc_spec(r: int, dy: int) -> spec_fn(int) -> bool {
    |i: int| (r - i) * (r - i) + dy * dy <= r * r
}

/// Column `i` of row `ly` is fully covered by the corner circle of radius `r`
/// centred on column `r`, row `cy`.
pub open spec fn solid_spec(ly: int, r: int, cy: int) -> spec_fn(int) -> bool {
    |i: int| circle_coverage_spec(i, ly, r, cy, r) == 255
}

/// How far in from the edge row `ly` of an `h` tall rounded rect of radius `r`
/// is fully inside the shape: 0 for rows between the arcs; otherwise the
/// first column, walking in from where the circle equation puts the arc, at
/// which the rasteriser reaches full coverage, at most `r`.
pub open spec fn corner_inset_spec(ly: int, h: int, r: int) -> int {
    if r <= 0 {
        0
    } else if ly >= r && ly < h - r {
        0
    } else {
        let cy = if ly < r { r } else { h - r };
        let d = if ly - cy >= 0 { ly - cy } else { cy - ly };
        let dy = if d >= 1 { d } else { 1 };
        first_from(solid_spec(ly, r, cy), first_from(inside_arc_spec(r, dy), 0, r), r)
    }
}

fn inside_arc(inset: i32, r: i32, dy: i64) -> (b: bool)
    requires
        0 <= inset <= r <= REACH,
        1 <= dy <= 0x8000_0000,
    ensures b == inside_arc_spec(r as int, dy as int)(inset as int),
{
    let rr = r as i64;
    let dx = rr - inset as i64;
    assert(0 <= dx * dx <= 0x40_0000 * 0x40_0000) by (nonlinear_arith) requires 0 <= dx <= 0x40_0000;
    assert(0 <= dy * dy <= 0x8000_0000 * 0x8000_0000) by (nonlinear_arith) requires 0 <= dy <= 0x8000_0000;
    assert(0 <= rr * rr <= 0x40_0000 * 0x40_0000) by (nonlinear_arith) requires 0 <= rr <= 0x40_0000;
    dx * dx + dy * dy <= rr * rr
}

proof fn lemma_first_step(p: spec_fn(int) -> bool, i: int, end: int)
    requires i < end, !p(i),
    ensures first_from(p, i, end) == first_from(p, i + 1, end),
{
}

proof fn lemma_first_bounds(p: spec_fn(int) -> bool, i: int, end: int)
    requires i <= end,
    ensures i <= first_from(p, i, end) <= end,
    decreases end - i,
{
    if i < end && !p(i) {
        lemma_first_bounds(p, i + 1, end);
    }
}

/// How far in from the edge a row of a rounded rect is fully inside the shape.
/// Rows between the arcs are straight and can be filled in one run.
///
/// The answer is checked against the rasteriser rather than derived from the
/// circle equation alone: an analytic inset is off by up to a pixel from where
/// the antialiaser actually reaches full coverage.
/// The arithmetic of `corner_inset` stays in range: a radius the coverage
/// arithmetic is sized for, and a corner centre and row offset that fit an
/// `i32`.
pub open spec fn corner_inset_fits(ly: int, h: int, r: int) -> bool {
    &&& r <= REACH
    &&& r > 0 ==> i32::MIN <= h - r
    &&& r > 0 && !(ly >= r && ly < h - r) ==> {
        let cy = if ly < r { r } else { h - r };
        i32::MIN < ly - cy <= i32::MAX
    }
}

pub fn corner_inset(ly: i32, h: i32, r: i32) -> (inset: i32)
    requires corner_inset_fits(ly as int, h as int, r as int),
    ensures
        inset == corner_inset_spec(ly as int, h as int, r as int),
        0 <= inset,
        r > 0 ==> inset <= r,
{
    if r <= 0 {
        return 0;
    }
    let cy = if ly < r {
        r
    } else if ly >= h - r {
        h - r
    } else {
        return 0;
    };
    let d = if ly - cy >= 0 { ly - cy } else { cy - ly };
    let dy = if d >= 1 { d as i64 } else { 1i64 };
    let ghost arc = inside_arc_spec(r as int, dy as int);
    let ghost solid = solid_spec(ly as int, r as int, cy as int);

    // Start from the circle equation, then walk out to where coverage is solid.
    let mut inset: i32 = 0;
    while inset < r && !inside_arc(inset, r, dy)
        invariant
            0 <= inset <= r <= REACH,
            1 <= dy <= 0x8000_0000,
            arc == inside_arc_spec(r as int, dy as int),
            first_from(arc, 0, r as int) == first_from(arc, inset as int, r as int),
        decreases r - inset,
    {
        proof { lemma_first_step(arc, inset as int, r as int); }
        inset += 1;
    }
    let ghost start = inset as int;
    proof {
        if inset < r {
            assert((r - inset) * (r - inset) >= 0) by (nonlinear_arith);
            assert(dy * dy <= r * r);
            if dy > r {
                assert(dy * dy > r * r) by (nonlinear_arith) requires dy > r, r > 0;
            }
        }
    }
    while inset < r && circle_coverage(inset, ly, r, cy, r) != 255
        invariant
            0 <= inset <= r <= REACH,
            inset < r ==> dy <= r,
            dy >= 1,
            dy as int == if ly - cy >= 0 { if ly - cy >= 1 { ly - cy } else { 1 } } else { cy - ly },
            solid == solid_spec(ly as int, r as int, cy as int),
            first_from(solid, start, r as int) == first_from(solid, inset as int, r as int),
        decreases r - inset,
    {
        proof { lemma_first_step(solid, inset as int, r as int); }
        inset += 1;
    }
    inset
}

proof fn lemma_first_from_range(p: spec_fn(int) -> bool, start: int, end: int)
    requires start <= end,
    ensures
        start <= first_from(p, start, end) <= end,
        first_from(p, start, end) < end ==> p(first_from(p, start, end)),
    decreases end - start,
{
    if start < end && !p(start) {
        lemma_first_from_range(p, start + 1, end);
    }
}

/// A sample count of 255 means every sample was hit.
proof fn lemma_full_means_all(inside: spec_fn(int, int) -> bool)
    requires scale_hits(count_grid(inside, SAMPLES as int)) == 255,
    ensures count_grid(inside, SAMPLES as int) == SAMPLES * SAMPLES,
{
    lemma_count_grid_bound(inside, SAMPLES as int);
    let n = count_grid(inside, SAMPLES as int) as int;
    if n < 16 {
        assert((n * 255) / 16 <= 239) by (nonlinear_arith) requires 0 <= n < 16;
    }
}

/// The four samples of a row, one by one.
proof fn lemma_count_row(inside: spec_fn(int, int) -> bool, sy: int)
    ensures
        count_cols(inside, sy, SAMPLES as int) == (if inside(0, sy) { 1int } else { 0 }) + (if inside(1, sy) { 1int } else { 0 })
            + (if inside(2, sy) { 1int } else { 0 }) + (if inside(3, sy) { 1int } else { 0 }),
{
    assert(count_cols(inside, sy, 0) == 0);
    assert(count_cols(inside, sy, 1) == count_cols(inside, sy, 0) + if inside(0, sy) { 1nat } else { 0nat });
    assert(count_cols(inside, sy, 2) == count_cols(inside, sy, 1) + if inside(1, sy) { 1nat } else { 0nat });
    assert(count_cols(inside, sy, 3) == count_cols(inside, sy, 2) + if inside(2, sy) { 1nat } else { 0nat });
    assert(count_cols(inside, sy, 4) == count_cols(inside, sy, 3) + if inside(3, sy) { 1nat } else { 0nat });
}

/// The grid of samples, row by row.
proof fn lemma_count_rows(inside: spec_fn(int, int) -> bool)
    ensures
        count_grid(inside, SAMPLES as int) == count_cols(inside, 0, SAMPLES as int) + count_cols(inside, 1, SAMPLES as int)
            + count_cols(inside, 2, SAMPLES as int) + count_cols(inside, 3, SAMPLES as int),
{
    assert(count_grid(inside, 0) == 0);
    assert(count_grid(inside, 1) == count_grid(inside, 0) + count_cols(inside, 0, SAMPLES as int));
    assert(count_grid(inside, 2) == count_grid(inside, 1) + count_cols(inside, 1, SAMPLES as int));
    assert(count_grid(inside, 3) == count_grid(inside, 2) + count_cols(inside, 2, SAMPLES as int));
    assert(count_grid(inside, 4) == count_grid(inside, 3) + count_cols(inside, 3, SAMPLES as int));
}

/// A pixel mirrored across a circle's vertical axis is covered alike: the
/// pixel `a` columns right of the centre and the one `a + 1` left of it.
proof fn lemma_circle_mirror(a: int, b: int, r: int)
    requires r >= 0,
    ensures circle_coverage_spec(a, b, 0, 0, r) == circle_coverage_spec(-a - 1, b, 0, 0, r),
{
    let r2 = (r * 256) * (r * 256);
    let p = in_circle(a, b, r2);
    let q = in_circle(-a - 1, b, r2);
    assert forall|sx: int, sy: int| 0 <= sx < SAMPLES implies #[trigger] q(sx, sy) == p(3 - sx, sy) by {
        assert(sample_at(-a - 1, sx) == -sample_at(a, 3 - sx));
        assert(sample_at(-a - 1, sx) * sample_at(-a - 1, sx) == sample_at(a, 3 - sx) * sample_at(a, 3 - sx))
            by (nonlinear_arith) requires sample_at(-a - 1, sx) == -sample_at(a, 3 - sx);
    }
    lemma_count_rows(p);
    lemma_count_rows(q);
    assert forall|sy: int| 0 <= sy < SAMPLES implies #[trigger] count_cols(q, sy, SAMPLES as int)
        == count_cols(p, sy, SAMPLES as int) by {
        lemma_count_row(p, sy);
        lemma_count_row(q, sy);
        assert(q(0, sy) == p(3, sy));
        assert(q(1, sy) == p(2, sy));
        assert(q(2, sy) == p(1, sy));
        assert(q(3, sy) == p(0, sy));
    }
    assert(count_cols(q, 0, SAMPLES as int) == count_cols(p, 0, SAMPLES as int));
    assert(count_cols(q, 1, SAMPLES as int) == count_cols(p, 1, SAMPLES as int));
    assert(count_cols(q, 2, SAMPLES as int) == count_cols(p, 2, SAMPLES as int));
    assert(count_cols(q, 3, SAMPLES as int) == count_cols(p, 3, SAMPLES as int));
    lemma_circle_coverage_exact(a, b, 0, 0, r);
    lemma_circle_coverage_exact(-a - 1, b, 0, 0, r);
    assert(a - 0 == a && -a - 1 - 0 == -a - 1 && b - 0 == b);
}

/// A pixel mirrored across a circle's horizontal axis is covered alike: the
/// pixel `b` rows below the centre and the one `b + 1` above it.
proof fn lemma_circle_mirror_rows(a: int, b: int, r: int)
    requires r >= 0,
    ensures circle_coverage_spec(a, b, 0, 0, r) == circle_coverage_spec(a, -b - 1, 0, 0, r),
{
    let r2 = (r * 256) * (r * 256);
    let p = in_circle(a, b, r2);
    let q = in_circle(a, -b - 1, r2);
    assert forall|sx: int, sy: int| 0 <= sy < SAMPLES implies #[trigger] q(sx, sy) == p(sx, 3 - sy) by {
        assert(sample_at(-b - 1, sy) == -sample_at(b, 3 - sy));
        assert(sample_at(-b - 1, sy) * sample_at(-b - 1, sy) == sample_at(b, 3 - sy) * sample_at(b, 3 - sy))
            by (nonlinear_arith) requires sample_at(-b - 1, sy) == -sample_at(b, 3 - sy);
    }
    lemma_count_rows(p);
    lemma_count_rows(q);
    assert forall|sy: int| 0 <= sy < SAMPLES implies #[trigger] count_cols(q, sy, SAMPLES as int)
        == count_cols(p, 3 - sy, SAMPLES as int) by {
        lemma_count_row(p, 3 - sy);
        lemma_count_row(q, sy);
        assert(q(0, sy) == p(0, 3 - sy));
        assert(q(1, sy) == p(1, 3 - sy));
        assert(q(2, sy) == p(2, 3 - sy));
        assert(q(3, sy) == p(3, 3 - sy));
    }
    assert(count_cols(q, 0, SAMPLES as int) == count_cols(p, 3, SAMPLES as int));
    assert(count_cols(q, 1, SAMPLES as int) == count_cols(p, 2, SAMPLES as int));
    assert(count_cols(q, 2, SAMPLES as int) == count_cols(p, 1, SAMPLES as int));
    assert(count_cols(q, 3, SAMPLES as int) == count_cols(p, 0, SAMPLES as int));
    lemma_circle_coverage_exact(a, b, 0, 0, r);
    lemma_circle_coverage_exact(a, -b - 1, 0, 0, r);
    assert(a - 0 == a && -b - 1 - 0 == -b - 1 && b - 0 == b);
}

/// Coverage depends only on where the pixel is from the centre.
proof fn lemma_circle_shift(px: int, py: int, cx: int, cy: int, r: int)
    ensures circle_coverage_spec(px, py, cx, cy, r) == circle_coverage_spec(px - cx, py - cy, 0, 0, r),
{
}

/// Left of a circle's centre, a pixel nearer the centre is covered at
/// least as fully: full coverage at column `j` carries on to every column
/// from `j` up to the centre.
proof fn lemma_circle_full_inward(j: int, lx: int, b: int, r: int)
    requires
        r >= 0,
        j <= lx < 0,
        circle_coverage_spec(j, b, 0, 0, r) == 255,
    ensures circle_coverage_spec(lx, b, 0, 0, r) == 255,
{
    let r2 = (r * 256) * (r * 256);
    let p = in_circle(j, b, r2);
    let q = in_circle(lx, b, r2);
    lemma_circle_coverage_exact(j, b, 0, 0, r);
    lemma_circle_coverage_exact(lx, b, 0, 0, r);
    assert(j - 0 == j && lx - 0 == lx && b - 0 == b);
    lemma_full_means_all(p);
    lemma_count_rows(p);
    // Every sample of `j` is hit.
    assert forall|sx: int, sy: int| 0 <= sx < SAMPLES && 0 <= sy < SAMPLES implies #[trigger] p(sx, sy) by {
        lemma_count_row(p, 0);
        lemma_count_row(p, 1);
        lemma_count_row(p, 2);
        lemma_count_row(p, 3);
    }
    assert forall|sx: int, sy: int| 0 <= sx < SAMPLES && 0 <= sy < SAMPLES implies #[trigger] q(sx, sy) by {
        assert(p(sx, sy));
        let xj = sample_at(j, sx);
        let xl = sample_at(lx, sx);
        assert(xj <= xl < 0);
        assert(xl * xl <= xj * xj) by (nonlinear_arith) requires xj <= xl < 0;
    }
    lemma_count_grid_uniform(q, SAMPLES as int, true);
}

/// The run `corner_inset` gives is fully inside the shape: in a `w` by `h`
/// rectangle with corners of radius `r` (at most half of either side), every
/// pixel of row `ly` from the inset to the same distance from the right edge
/// has full coverage.
pub proof fn lemma_corner_inset_solid(lx: int, ly: int, w: int, h: int, r: int)
    requires
        0 <= r,
        2 * r <= w,
        2 * r <= h,
        0 <= ly < h,
        corner_inset_spec(ly, h, r) <= lx < w - corner_inset_spec(ly, h, r),
    ensures rounded_coverage_spec(lx, ly, w, h, r) == 255,
{
    if r > 0 && !(ly >= r && ly < h - r) && !(lx >= r && lx < w - r) {
        let cy = if ly < r { r } else { h - r };
        let d = if ly - cy >= 0 { ly - cy } else { cy - ly };
        let dy = if d >= 1 { d } else { 1 };
        let i0 = first_from(inside_arc_spec(r, dy), 0, r);
        lemma_first_from_range(inside_arc_spec(r, dy), 0, r);
        lemma_first_from_range(solid_spec(ly, r, cy), i0, r);
        let j = first_from(solid_spec(ly, r, cy), i0, r);
        assert(corner_inset_spec(ly, h, r) == j);
        assert(j < r);
        assert(circle_coverage_spec(j, ly, r, cy, r) == 255);
        lemma_circle_shift(j, ly, r, cy, r);
        if lx < r {
            lemma_circle_shift(lx, ly, r, cy, r);
            lemma_circle_full_inward(j - r, lx - r, ly - cy, r);
        } else {
            // Mirror the right-hand corner onto the left one.
            let m = w - 1 - lx;
            assert(j <= m < r);
            lemma_circle_shift(lx, ly, w - r, cy, r);
            lemma_circle_shift(m, ly, r, cy, r);
            lemma_circle_full_inward(j - r, m - r, ly - cy, r);
            lemma_circle_mirror(lx - (w - r), ly - cy, r);
            assert(-(lx - (w - r)) - 1 == m - r);
        }
    }
}

/// A rounded rectangle is covered alike on both sides of its vertical and
/// its horizontal centre line, and fully between the corners.
pub proof fn lemma_rounded_mirror(lx: int, ly: int, w: int, h: int, r: int)
    requires
        0 <= r,
        2 * r <= w,
        2 * r <= h,
        0 <= lx < w,
        0 <= ly < h,
    ensures
        rounded_coverage_spec(lx, ly, w, h, r) == rounded_coverage_spec(w - 1 - lx, ly, w, h, r),
        rounded_coverage_spec(lx, ly, w, h, r) == rounded_coverage_spec(lx, h - 1 - ly, w, h, r),
        (r <= lx < w - r || r <= ly < h - r) ==> rounded_coverage_spec(lx, ly, w, h, r) == 255,
{
    let mx = w - 1 - lx;
    let my = h - 1 - ly;
    let in_x = r <= lx < w - r;
    let in_y = r <= ly < h - r;
    if !(in_x || in_y) {
        let cx = if lx < r { r } else { w - r };
        let cy = if ly < r { r } else { h - r };
        let cmx = if mx < r { r } else { w - r };
        let cmy = if my < r { r } else { h - r };
        lemma_circle_shift(lx, ly, cx, cy, r);
        lemma_circle_shift(mx, ly, cmx, cy, r);
        lemma_circle_shift(lx, my, cx, cmy, r);
        assert(mx - cmx == -(lx - cx) - 1);
        assert(my - cmy == -(ly - cy) - 1);
        lemma_circle_mirror(lx - cx, ly - cy, r);
        lemma_circle_mirror_rows(lx - cx, ly - cy, r);
    }
}

} // verus!
