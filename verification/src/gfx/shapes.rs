use vstd::prelude::*;
use super::canvas::{Canvas, CANVAS_MAX, same_frame, paint_of};
use super::color::{Color, mul255, mul255_spec};
use super::coverage::{COORD, falloff, falloff_spec, rounded_coverage_signed, rounded_coverage_signed_spec, corner_inset, corner_inset_spec, rounded_coverage, rounded_coverage_spec, ELLIPSE_REACH, REACH, falloff_fits, small, circle_coverage, circle_coverage_spec, ring_coverage,
    ring_coverage_spec, ellipse_coverage, ellipse_coverage_spec, lemma_corner_inset_solid};
use super::rect::{Rect, min_i32, max_i32};

verus! {

/// Integer division rounding toward zero, as the machine divides, for a
/// positive divisor.
pub open spec fn tdiv(a: int, b: int) -> int {
    if a >= 0 { a / b } else { -((-a) / b) }
}

/// The smaller of two integers.
pub open spec fn lo(a: int, b: int) -> int {
    if a <= b { a } else { b }
}

/// The larger of two integers.
pub open spec fn hi(a: int, b: int) -> int {
    if a >= b { a } else { b }
}

/// What a solid rectangle does to the pixel `(px, py)`.
pub open spec fn rect_px<C: Canvas>(old: Color, px: int, py: int, clip: Rect, mode: int, x: int, y: int, w: int, h: int, c: Color) -> Color {
    if w > 0 && h > 0 && x <= px < x + w && y <= py < y + h && clip.has(px, py) {
        paint_of::<C>(mode, c, old)
    } else {
        old
    }
}

/// A pixel of colour `c` at coverage `cov` blended in: nothing at zero
/// coverage, `c` itself at full coverage, `c` faded otherwise.
pub open spec fn covered_px<C: Canvas>(mode: int, old: Color, c: Color, cov: u8) -> Color {
    if cov == 0 {
        old
    } else {
        C::blend_spec(mode, if cov == 255 { c } else { c.fade_spec(cov) }, old)
    }
}

/// The square of pixels `lo..hi` both ways around a centre, cut to the clip.
pub open spec fn in_box(clip: Rect, px: int, py: int, x0: int, y0: int, x1: int, y1: int) -> bool {
    clip.has(px, py) && x0 <= px < x1 && y0 <= py < y1
}

pub fn fill_rect<C: Canvas>(fb: &mut C, x: i32, y: i32, w: i32, h: i32, c: Color)
    requires
        old(fb).inv(),
        i32::MIN <= x + w <= i32::MAX,
        i32::MIN <= y + h <= i32::MAX,
    ensures
        final(fb).inv(),
        same_frame(*old(fb), *final(fb)),
        forall|px: int, py: int| #[trigger] final(fb).pixel(px, py)
            == rect_px::<C>(old(fb).pixel(px, py), px, py, old(fb).clip_spec(), old(fb).mode(), x as int, y as int, w as int, h as int, c),
{
    if w <= 0 || h <= 0 {
        return;
    }
    proof { fb.lemma_inv(); }
    let (cx0, cy0, cx1, cy1) = fb.bounds();
    let x0 = max_i32(x, cx0);
    let y0 = max_i32(y, cy0);
    let x1 = min_i32(x + w, cx1);
    let y1 = min_i32(y + h, cy1);
    if x1 <= x0 {
        return;
    }
    let ghost start = *fb;
    let mut py = y0;
    while py < y1
        invariant
            fb.inv(),
            same_frame(start, *fb),
            start.clip_spec() == (Rect { x0: cx0, y0: cy0, x1: cx1, y1: cy1 }),
            0 <= cx0, 0 <= cy0, cx1 <= CANVAS_MAX, cy1 <= CANVAS_MAX,
            w > 0, h > 0,
            x0 == hi(x as int, cx0 as int), y0 == hi(y as int, cy0 as int),
            x1 == lo(x + w, cx1 as int), y1 == lo(y + h, cy1 as int),
            x0 < x1, y0 <= py,
            forall|qx: int, qy: int| #[trigger] fb.pixel(qx, qy) == if qy < py {
                rect_px::<C>(start.pixel(qx, qy), qx, qy, start.clip_spec(), start.mode(), x as int, y as int, w as int, h as int, c)
            } else {
                start.pixel(qx, qy)
            },
        decreases y1 - py,
    {
        fb.fill_row(x0 as usize, py as usize, (x1 - x0) as usize, c);
        py += 1;
    }
}

/// The colour of row `y` of a `height` tall three-stop gradient.
pub open spec fn gradient_row(y: int, height: int, top: Color, mid: Color, bottom: Color) -> Color {
    let h = if height >= 1 { height } else { 1 };
    let p = (y * 510) / h;
    if p <= 255 {
        Color::lerp_spec(top, mid, p as u8)
    } else {
        Color::lerp_spec(mid, bottom, (p - 255) as u8)
    }
}

/// Paints the clip with a gradient running from `top` through `mid` at half
/// height to `bottom`.
pub fn vertical_gradient<C: Canvas>(fb: &mut C, top: Color, mid: Color, bottom: Color)
    requires old(fb).inv(),
    ensures
        final(fb).inv(),
        same_frame(*old(fb), *final(fb)),
        forall|px: int, py: int| #[trigger] final(fb).pixel(px, py) == if old(fb).clip_spec().has(px, py) {
            paint_of::<C>(old(fb).mode(), gradient_row(py, old(fb).height_spec(), top, mid, bottom), old(fb).pixel(px, py))
        } else {
            old(fb).pixel(px, py)
        },
{
    proof { fb.lemma_inv(); }
    let height = fb.height();
    let h = if height >= 1 { height } else { 1 };
    let (cx0, cy0, cx1, cy1) = fb.bounds();
    if cx1 <= cx0 {
        return;
    }
    let ghost start = *fb;
    let mut y = max_i32(cy0, 0);
    while y < cy1
        invariant
            fb.inv(),
            same_frame(start, *fb),
            start.clip_spec() == (Rect { x0: cx0, y0: cy0, x1: cx1, y1: cy1 }),
            0 <= cx0 < cx1 <= CANVAS_MAX, 0 <= cy0, cy1 <= height,
            height == start.height_spec(), height <= CANVAS_MAX,
            h == (if height >= 1 { height } else { 1 }),
            cy0 <= y,
            forall|qx: int, qy: int| #[trigger] fb.pixel(qx, qy) == if qy < y && start.clip_spec().has(qx, qy) {
                paint_of::<C>(start.mode(), gradient_row(qy, height as int, top, mid, bottom), start.pixel(qx, qy))
            } else {
                start.pixel(qx, qy)
            },
        decreases cy1 - y,
    {
        assert(0 <= (y as int) * 510 <= 510 * CANVAS_MAX) by (nonlinear_arith) requires 0 <= y <= CANVAS_MAX;
        assert((y as int) * 510 / (h as int) < 510) by (nonlinear_arith) requires 0 <= y < h;
        let p = ((y as u64 * 510) / (h as u64)) as usize;
        let row = if p <= 255 {
            Color::lerp(top, mid, p as u8)
        } else {
            Color::lerp(mid, bottom, (p - 255) as u8)
        };
        fb.fill_row(cx0 as usize, y as usize, (cx1 - cx0) as usize, row);
        y += 1;
    }
}

/// What a filled circle does to the pixel `(px, py)`.
pub open spec fn circle_px<C: Canvas>(old: Color, px: int, py: int, clip: Rect, mode: int, cx: int, cy: int, r: int, c: Color) -> Color {
    if r > 0 && in_box(clip, px, py, cx - r - 1, cy - r - 1, cx + r + 1, cy + r + 1) {
        covered_px::<C>(mode, old, c, circle_coverage_spec(px, py, cx, cy, r))
    } else {
        old
    }
}

/// Fills an antialiased circle of radius `r` around `(cx, cy)`.
pub fn fill_circle<C: Canvas>(fb: &mut C, cx: i32, cy: i32, r: i32, c: Color)
    requires
        old(fb).inv(),
        small(cx as int), small(cy as int), small(r as int),
    ensures
        final(fb).inv(),
        same_frame(*old(fb), *final(fb)),
        forall|px: int, py: int| #[trigger] final(fb).pixel(px, py)
            == circle_px::<C>(old(fb).pixel(px, py), px, py, old(fb).clip_spec(), old(fb).mode(), cx as int, cy as int, r as int, c),
{
    if r <= 0 {
        return;
    }
    proof { fb.lemma_inv(); }
    let r2 = r + 1;
    let (bx0, by0, bx1, by1) = fb.bounds();
    let x0 = max_i32(cx - r2, bx0);
    let x1 = min_i32(cx + r2, bx1);
    let y1 = min_i32(cy + r2, by1);
    let ghost start = *fb;
    let mut py = max_i32(cy - r2, by0);
    let ghost y0 = py;
    while py < y1
        invariant
            fb.inv(),
            same_frame(start, *fb),
            start.clip_spec() == (Rect { x0: bx0, y0: by0, x1: bx1, y1: by1 }),
            0 <= bx0, 0 <= by0, bx1 <= CANVAS_MAX, by1 <= CANVAS_MAX,
            small(cx as int), small(cy as int), 0 < r <= COORD, r2 == r + 1,
            x0 == hi(cx - r2, bx0 as int), x1 == lo(cx + r2, bx1 as int),
            y0 == hi(cy - r2, by0 as int), y1 == lo(cy + r2, by1 as int),
            y0 <= py,
            forall|qx: int, qy: int| #[trigger] fb.pixel(qx, qy) == if qy < py {
                circle_px::<C>(start.pixel(qx, qy), qx, qy, start.clip_spec(), start.mode(), cx as int, cy as int, r as int, c)
            } else {
                start.pixel(qx, qy)
            },
        decreases y1 - py,
    {
        let mut px = x0;
        while px < x1
            invariant
                fb.inv(),
                same_frame(start, *fb),
                start.clip_spec() == (Rect { x0: bx0, y0: by0, x1: bx1, y1: by1 }),
                0 <= bx0, 0 <= by0, bx1 <= CANVAS_MAX, by1 <= CANVAS_MAX,
                small(cx as int), small(cy as int), 0 < r <= COORD, r2 == r + 1,
                x0 == hi(cx - r2, bx0 as int), x1 == lo(cx + r2, bx1 as int),
                y0 == hi(cy - r2, by0 as int), y1 == lo(cy + r2, by1 as int),
                y0 <= py < y1, x0 <= px,
                forall|qx: int, qy: int| #[trigger] fb.pixel(qx, qy) == if qy < py || (qy == py && qx < px) {
                    circle_px::<C>(start.pixel(qx, qy), qx, qy, start.clip_spec(), start.mode(), cx as int, cy as int, r as int, c)
                } else {
                    start.pixel(qx, qy)
                },
            decreases x1 - px,
        {
            let cov = circle_coverage(px, py, cx, cy, r);
            if cov != 0 {
                let pixel = if cov == 255 { c } else { c.fade(cov) };
                fb.blend_pixel(px as usize, py as usize, pixel);
            }
            px += 1;
        }
        py += 1;
    }
}


/// What a filled ellipse does to the pixel `(px, py)`.
pub open spec fn ellipse_px<C: Canvas>(old: Color, px: int, py: int, clip: Rect, mode: int, cx: int, cy: int, rx: int, ry: int, c: Color) -> Color {
    if rx > 0 && ry > 0 && in_box(clip, px, py, cx - rx - 1, cy - ry - 1, cx + rx + 1, cy + ry + 1) {
        covered_px::<C>(mode, old, c, ellipse_coverage_spec(px, py, cx, cy, rx, ry))
    } else {
        old
    }
}

/// What a stroked circle does to the pixel `(px, py)`: a ring from
/// `r - thickness / 2` out to `r + (thickness + 1) / 2`.
pub open spec fn ring_px<C: Canvas>(old: Color, px: int, py: int, clip: Rect, mode: int, cx: int, cy: int, r: int, thickness: int, c: Color) -> Color {
    let inner = if r - thickness / 2 >= 0 { r - thickness / 2 } else { 0 };
    let outer = r + (thickness + 1) / 2;
    if r > 0 && thickness > 0 && in_box(clip, px, py, cx - outer - 1, cy - outer - 1, cx + outer + 1, cy + outer + 1) {
        covered_px::<C>(mode, old, c, ring_coverage_spec(px, py, cx, cy, inner, outer))
    } else {
        old
    }
}

/// The alpha of a radial glow `t / 255` of the way out: from `inner_a` at
/// the centre to `outer_a` at the rim.
pub open spec fn glow_alpha(inner_a: u8, outer_a: u8, t: int) -> u8 {
    (inner_a as int * (255 - t) / 255 + outer_a as int * t / 255) as u8
}

/// What a radial glow does to the pixel `(px, py)`: inside the radius the
/// glow colour is blended in at an alpha falling with the squared distance.
pub open spec fn glow_px<C: Canvas>(old: Color, px: int, py: int, clip: Rect, mode: int, cx: int, cy: int, r: int, outer_alpha: u8, c: Color) -> Color {
    let d_sq = (px - cx) * (px - cx) + (py - cy) * (py - cy);
    if r > 0 && in_box(clip, px, py, cx - r, cy - r, cx + r, cy + r) && d_sq < r * r {
        C::blend_spec(mode, Color { a: glow_alpha(c.a, outer_alpha, d_sq * 255 / (r * r)), ..c }, old)
    } else {
        old
    }
}

pub fn fill_ellipse<C: Canvas>(fb: &mut C, cx: i32, cy: i32, rx: i32, ry: i32, c: Color)
    requires
        old(fb).inv(),
        small(cx as int), small(cy as int), rx < ELLIPSE_REACH, ry < ELLIPSE_REACH,
    ensures
        final(fb).inv(),
        same_frame(*old(fb), *final(fb)),
        forall|px: int, py: int| #[trigger] final(fb).pixel(px, py)
            == ellipse_px::<C>(old(fb).pixel(px, py), px, py, old(fb).clip_spec(), old(fb).mode(), cx as int, cy as int, rx as int, ry as int, c),
{
    if rx <= 0 || ry <= 0 {
        return;
    }
    proof { fb.lemma_inv(); }
    let rx2 = rx as i64;
    let ry2 = ry as i64;
    assert(0 < rx2 * rx2 <= 0x800 * 0x800) by (nonlinear_arith) requires 0 < rx2 <= 0x800;
    assert(0 < ry2 * ry2 <= 0x800 * 0x800) by (nonlinear_arith) requires 0 < ry2 <= 0x800;
    assert(rx2 * rx2 * (ry2 * ry2) <= 0x40_0000 * 0x40_0000) by (nonlinear_arith)
        requires 0 < rx2 * rx2 <= 0x40_0000, 0 < ry2 * ry2 <= 0x40_0000;
    assert(0 < rx2 * rx2 * ry2 <= 0x40_0000 * 0x800) by (nonlinear_arith)
        requires 0 < rx2 * rx2 <= 0x40_0000, 0 < ry2 <= 0x800;
    assert(rx2 * rx2 * ry2 * ry2 == rx2 * rx2 * (ry2 * ry2)) by (nonlinear_arith);
    let denom = rx2 * rx2 * ry2 * ry2;
    let (bx0, by0, bx1, by1) = fb.bounds();
    let x0 = max_i32(cx - rx - 1, bx0);
    let x1 = min_i32(cx + rx + 1, bx1);
    let y1 = min_i32(cy + ry + 1, by1);
    let ghost start = *fb;
    let mut py = max_i32(cy - ry - 1, by0);
    let ghost y0 = py;
    while py < y1
        invariant
            fb.inv(),
            same_frame(start, *fb),
            start.clip_spec() == (Rect { x0: bx0, y0: by0, x1: bx1, y1: by1 }),
            0 <= bx0, 0 <= by0, bx1 <= CANVAS_MAX, by1 <= CANVAS_MAX,
            small(cx as int), small(cy as int), 0 < rx < ELLIPSE_REACH, 0 < ry < ELLIPSE_REACH, rx2 == rx, ry2 == ry,
            denom == rx2 * rx2 * ry2 * ry2,
            x0 == hi(cx - rx - 1 as int, bx0 as int), x1 == lo(cx + rx + 1 as int, bx1 as int),
            y0 == hi(cy - ry - 1 as int, by0 as int), y1 == lo(cy + ry + 1 as int, by1 as int),
            y0 <= py,
            forall|qx: int, qy: int| #[trigger] fb.pixel(qx, qy) == if qy < py {
                ellipse_px::<C>(start.pixel(qx, qy), qx, qy, start.clip_spec(), start.mode(), cx as int, cy as int, rx as int, ry as int, c)
            } else {
                start.pixel(qx, qy)
            },
        decreases y1 - py,
    {
        let mut px = x0;
        while px < x1
            invariant
                fb.inv(),
                same_frame(start, *fb),
                start.clip_spec() == (Rect { x0: bx0, y0: by0, x1: bx1, y1: by1 }),
                0 <= bx0, 0 <= by0, bx1 <= CANVAS_MAX, by1 <= CANVAS_MAX,
                small(cx as int), small(cy as int), 0 < rx < ELLIPSE_REACH, 0 < ry < ELLIPSE_REACH, rx2 == rx, ry2 == ry,
            denom == rx2 * rx2 * ry2 * ry2,
                x0 == hi(cx - rx - 1 as int, bx0 as int), x1 == lo(cx + rx + 1 as int, bx1 as int),
                y0 == hi(cy - ry - 1 as int, by0 as int), y1 == lo(cy + ry + 1 as int, by1 as int),
                y0 <= py < y1, x0 <= px,
                forall|qx: int, qy: int| #[trigger] fb.pixel(qx, qy) == if qy < py || (qy == py && qx < px) {
                    ellipse_px::<C>(start.pixel(qx, qy), qx, qy, start.clip_spec(), start.mode(), cx as int, cy as int, rx as int, ry as int, c)
                } else {
                    start.pixel(qx, qy)
                },
            decreases x1 - px,
        {
            let cov = ellipse_coverage(px, py, cx, cy, rx as i64, ry as i64, denom);
            if cov != 0 {
                let pixel = if cov == 255 { c } else { c.fade(cov) };
                fb.blend_pixel(px as usize, py as usize, pixel);
            }
            px += 1;
        }
        py += 1;
    }
}

pub fn stroke_circle<C: Canvas>(fb: &mut C, cx: i32, cy: i32, r: i32, thickness: i32, c: Color)
    requires
        old(fb).inv(),
        small(cx as int), small(cy as int), small(r as int), small(thickness as int),
    ensures
        final(fb).inv(),
        same_frame(*old(fb), *final(fb)),
        forall|px: int, py: int| #[trigger] final(fb).pixel(px, py)
            == ring_px::<C>(old(fb).pixel(px, py), px, py, old(fb).clip_spec(), old(fb).mode(), cx as int, cy as int, r as int, thickness as int, c),
{
    if r <= 0 || thickness <= 0 {
        return;
    }
    proof { fb.lemma_inv(); }
    let inner = if r - thickness / 2 >= 0 { (r - thickness / 2) as i64 } else { 0i64 };
    let outer = (r + (thickness + 1) / 2) as i64;
    assert(0 <= inner * inner <= outer * outer <= 0x20_0000 * 0x20_0000) by (nonlinear_arith)
        requires 0 <= inner <= outer <= 0x20_0000;
    let inner_sq = inner * inner;
    let outer_sq = outer * outer;
    let outer_i = outer as i32;
    let (bx0, by0, bx1, by1) = fb.bounds();
    let x0 = max_i32(cx - outer_i - 1, bx0);
    let x1 = min_i32(cx + outer_i + 1, bx1);
    let y1 = min_i32(cy + outer_i + 1, by1);
    let ghost start = *fb;
    let mut py = max_i32(cy - outer_i - 1, by0);
    let ghost y0 = py;
    while py < y1
        invariant
            fb.inv(),
            same_frame(start, *fb),
            start.clip_spec() == (Rect { x0: bx0, y0: by0, x1: bx1, y1: by1 }),
            0 <= bx0, 0 <= by0, bx1 <= CANVAS_MAX, by1 <= CANVAS_MAX,
            small(cx as int), small(cy as int), 0 < r <= COORD, 0 < thickness <= COORD,
            inner == (if r - thickness / 2 >= 0 { r - thickness / 2 } else { 0 }),
            outer == r + (thickness + 1) / 2, outer_i == outer,
            inner_sq == inner * inner, outer_sq == outer * outer,
            x0 == hi(cx - outer_i - 1 as int, bx0 as int), x1 == lo(cx + outer_i + 1 as int, bx1 as int),
            y0 == hi(cy - outer_i - 1 as int, by0 as int), y1 == lo(cy + outer_i + 1 as int, by1 as int),
            y0 <= py,
            forall|qx: int, qy: int| #[trigger] fb.pixel(qx, qy) == if qy < py {
                ring_px::<C>(start.pixel(qx, qy), qx, qy, start.clip_spec(), start.mode(), cx as int, cy as int, r as int, thickness as int, c)
            } else {
                start.pixel(qx, qy)
            },
        decreases y1 - py,
    {
        let mut px = x0;
        while px < x1
            invariant
                fb.inv(),
                same_frame(start, *fb),
                start.clip_spec() == (Rect { x0: bx0, y0: by0, x1: bx1, y1: by1 }),
                0 <= bx0, 0 <= by0, bx1 <= CANVAS_MAX, by1 <= CANVAS_MAX,
                small(cx as int), small(cy as int), 0 < r <= COORD, 0 < thickness <= COORD,
            inner == (if r - thickness / 2 >= 0 { r - thickness / 2 } else { 0 }),
            outer == r + (thickness + 1) / 2, outer_i == outer,
            inner_sq == inner * inner, outer_sq == outer * outer,
                x0 == hi(cx - outer_i - 1 as int, bx0 as int), x1 == lo(cx + outer_i + 1 as int, bx1 as int),
                y0 == hi(cy - outer_i - 1 as int, by0 as int), y1 == lo(cy + outer_i + 1 as int, by1 as int),
                y0 <= py < y1, x0 <= px,
                forall|qx: int, qy: int| #[trigger] fb.pixel(qx, qy) == if qy < py || (qy == py && qx < px) {
                    ring_px::<C>(start.pixel(qx, qy), qx, qy, start.clip_spec(), start.mode(), cx as int, cy as int, r as int, thickness as int, c)
                } else {
                    start.pixel(qx, qy)
                },
            decreases x1 - px,
        {
            let cov = ring_coverage(px, py, cx, cy, inner, outer, inner_sq, outer_sq);
            if cov != 0 {
                let pixel = if cov == 255 { c } else { c.fade(cov) };
                fb.blend_pixel(px as usize, py as usize, pixel);
            }
            px += 1;
        }
        py += 1;
    }
}

/// A soft disc: `inner` at the centre, fading to `outer_alpha` of it at the
/// rim, and nothing beyond.
pub fn radial_glow<C: Canvas>(fb: &mut C, cx: i32, cy: i32, r: i32, inner: Color, outer_alpha: u8)
    requires
        old(fb).inv(),
        small(cx as int), small(cy as int), small(r as int),
    ensures
        final(fb).inv(),
        same_frame(*old(fb), *final(fb)),
        forall|px: int, py: int| #[trigger] final(fb).pixel(px, py)
            == glow_px::<C>(old(fb).pixel(px, py), px, py, old(fb).clip_spec(), old(fb).mode(), cx as int, cy as int, r as int, outer_alpha, inner),
{
    if r <= 0 {
        return;
    }
    proof { fb.lemma_inv(); }
    let r64 = r as i64;
    assert(0 < r64 * r64 <= 0x10_0000 * 0x10_0000) by (nonlinear_arith) requires 0 < r64 <= 0x10_0000;
    let r_sq = r64 * r64;
    let (bx0, by0, bx1, by1) = fb.bounds();
    let x0 = max_i32(cx - r, bx0);
    let x1 = min_i32(cx + r, bx1);
    let y1 = min_i32(cy + r, by1);
    let ghost start = *fb;
    let mut py = max_i32(cy - r, by0);
    let ghost y0 = py;
    while py < y1
        invariant
            fb.inv(),
            same_frame(start, *fb),
            start.clip_spec() == (Rect { x0: bx0, y0: by0, x1: bx1, y1: by1 }),
            0 <= bx0, 0 <= by0, bx1 <= CANVAS_MAX, by1 <= CANVAS_MAX,
            small(cx as int), small(cy as int), 0 < r <= COORD, r_sq == r * r,
            x0 == hi(cx - r as int, bx0 as int), x1 == lo(cx + r as int, bx1 as int),
            y0 == hi(cy - r as int, by0 as int), y1 == lo(cy + r as int, by1 as int),
            y0 <= py,
            forall|qx: int, qy: int| #[trigger] fb.pixel(qx, qy) == if qy < py {
                glow_px::<C>(start.pixel(qx, qy), qx, qy, start.clip_spec(), start.mode(), cx as int, cy as int, r as int, outer_alpha, inner)
            } else {
                start.pixel(qx, qy)
            },
        decreases y1 - py,
    {
        let mut px = x0;
        while px < x1
            invariant
                fb.inv(),
                same_frame(start, *fb),
                start.clip_spec() == (Rect { x0: bx0, y0: by0, x1: bx1, y1: by1 }),
                0 <= bx0, 0 <= by0, bx1 <= CANVAS_MAX, by1 <= CANVAS_MAX,
                small(cx as int), small(cy as int), 0 < r <= COORD, r_sq == r * r,
                x0 == hi(cx - r as int, bx0 as int), x1 == lo(cx + r as int, bx1 as int),
                y0 == hi(cy - r as int, by0 as int), y1 == lo(cy + r as int, by1 as int),
                y0 <= py < y1, x0 <= px,
                forall|qx: int, qy: int| #[trigger] fb.pixel(qx, qy) == if qy < py || (qy == py && qx < px) {
                    glow_px::<C>(start.pixel(qx, qy), qx, qy, start.clip_spec(), start.mode(), cx as int, cy as int, r as int, outer_alpha, inner)
                } else {
                    start.pixel(qx, qy)
                },
            decreases x1 - px,
        {
            let dx = (px - cx) as i64;
            let dy = (py - cy) as i64;
            assert(0 <= dx * dx <= 0x10_0000 * 0x10_0000) by (nonlinear_arith) requires -0x10_0000 <= dx <= 0x10_0000;
            assert(0 <= dy * dy <= 0x10_0000 * 0x10_0000) by (nonlinear_arith) requires -0x10_0000 <= dy <= 0x10_0000;
            let d_sq = dx * dx + dy * dy;
            if d_sq < r_sq {
                assert(0 <= (d_sq as int) * 255 / (r_sq as int) <= 255) by (nonlinear_arith) requires 0 <= d_sq < r_sq;
                let t = ((d_sq * 255) / r_sq) as u32;
                assert((inner.a as u32) * (255 - t) / 255 + (outer_alpha as u32) * t / 255 <= 255) by (nonlinear_arith)
                    requires inner.a < 256, outer_alpha < 256, t <= 255;
                assert((inner.a as u32) * (255 - t) <= 255 * 255) by (nonlinear_arith) requires inner.a < 256, t <= 255;
                assert((outer_alpha as u32) * t <= 255 * 255) by (nonlinear_arith) requires outer_alpha < 256, t <= 255;
                let alpha = (inner.a as u32 * (255 - t) / 255 + outer_alpha as u32 * t / 255) as u8;
                fb.blend_pixel(px as usize, py as usize, inner.with_alpha(alpha));
            }
            px += 1;
        }
        py += 1;
    }
}
/// A corner radius made non-negative and capped at half of either side.
pub open spec fn capped_radius(r: int, w: int, h: int) -> int {
    let a = if r >= 0 { r } else { 0 };
    let b = if a <= w / 2 { a } else { w / 2 };
    if b <= h / 2 { b } else { h / 2 }
}

/// Where the solid run of row `py` of a rounded rect starts: the whole
/// clipped row between the arcs, the corner inset in from the edge on them.
pub open spec fn run_start(py: int, x: int, y: int, w: int, h: int, r: int, x0: int) -> int {
    let ly = py - y;
    if ly >= r && ly < h - r { x0 } else { hi(x + corner_inset_spec(ly, h, r), x0) }
}

pub open spec fn run_end(py: int, x: int, y: int, w: int, h: int, r: int, x1: int) -> int {
    let ly = py - y;
    if ly >= r && ly < h - r { x1 } else { lo(x + w - corner_inset_spec(ly, h, r), x1) }
}

/// An edge pixel of colour `c` at coverage `cov`: nothing at zero coverage,
/// `c` faded to the coverage otherwise.
pub open spec fn faded_px<C: Canvas>(mode: int, old: Color, c: Color, cov: u8) -> Color {
    if cov == 0 { old } else { C::blend_spec(mode, c.fade_spec(cov), old) }
}

/// What a filled rounded rectangle does to the pixel `(px, py)`: its solid
/// run is painted, the antialiased ends are blended by coverage.
pub open spec fn rounded_px<C: Canvas>(old: Color, px: int, py: int, clip: Rect, mode: int, x: int, y: int, w: int, h: int, r: int, c: Color) -> Color {
    let rr = capped_radius(r, w, h);
    let x0 = hi(x, clip.x0 as int);
    let x1 = lo(x + w, clip.x1 as int);
    if w > 0 && h > 0 && in_box(clip, px, py, x, y, x + w, y + h) {
        if run_start(py, x, y, w, h, rr, x0) <= px < run_end(py, x, y, w, h, rr, x1) {
            paint_of::<C>(mode, c, old)
        } else {
            faded_px::<C>(mode, old, c, rounded_coverage_spec(px - x, py - y, w, h, rr))
        }
    } else {
        old
    }
}

/// A filled rounded rectangle paints a pixel solid only where the shape
/// covers it fully: the solid run of every row lies where the coverage is
/// 255, so no hard edge is drawn where antialiasing belongs.
pub proof fn lemma_rounded_run_is_covered(px: int, py: int, clip: Rect, x: int, y: int, w: int, h: int, r: int)
    requires
        w > 0,
        h > 0,
        in_box(clip, px, py, x, y, x + w, y + h),
        run_start(py, x, y, w, h, capped_radius(r, w, h), hi(x, clip.x0 as int)) <= px
            < run_end(py, x, y, w, h, capped_radius(r, w, h), lo(x + w, clip.x1 as int)),
    ensures rounded_coverage_spec(px - x, py - y, w, h, capped_radius(r, w, h)) == 255,
{
    let rr = capped_radius(r, w, h);
    let ly = py - y;
    if !(ly >= rr && ly < h - rr) {
        lemma_corner_inset_solid(px - x, ly, w, h, rr);
    }
}

/// Blends the antialiased pixels `from..to` of row `py` of a rounded rect.
fn rounded_edge<C: Canvas>(fb: &mut C, from: i32, to: i32, py: i32, x: i32, y: i32, w: i32, h: i32, r: i32, c: Color)
    requires
        old(fb).inv(),
        i32::MIN <= x + w <= i32::MAX, i32::MIN <= y + h <= i32::MAX, 0 < w, 0 < h, 0 <= r <= REACH,
        2 * r <= w, 2 * r <= h,
        x <= from, to <= x + w, y <= py < y + h,
        old(fb).clip_spec().x0 <= from, to <= old(fb).clip_spec().x1,
        old(fb).clip_spec().y0 <= py < old(fb).clip_spec().y1,
    ensures
        final(fb).inv(),
        same_frame(*old(fb), *final(fb)),
        forall|qx: int, qy: int| #[trigger] final(fb).pixel(qx, qy) == if qy == py && from <= qx < to {
            faded_px::<C>(old(fb).mode(), old(fb).pixel(qx, qy), c, rounded_coverage_spec(qx - x, qy - y, w as int, h as int, r as int))
        } else {
            old(fb).pixel(qx, qy)
        },
{
    proof { fb.lemma_inv(); }
    let ghost start = *fb;
    let mut px = from;
    while px < to
        invariant
            fb.inv(),
            same_frame(start, *fb),
            i32::MIN <= x + w <= i32::MAX, i32::MIN <= y + h <= i32::MAX, 0 < w, 0 < h, 0 <= r <= REACH,
            2 * r <= w, 2 * r <= h,
            x <= from <= px, to <= x + w, y <= py < y + h,
            px <= to || px == from,
            start.clip_spec().x0 <= from, to <= start.clip_spec().x1,
            start.clip_spec().y0 <= py < start.clip_spec().y1,
            0 <= start.clip_spec().x0, 0 <= start.clip_spec().y0,
            forall|qx: int, qy: int| #[trigger] fb.pixel(qx, qy) == if qy == py && from <= qx < px {
                faded_px::<C>(start.mode(), start.pixel(qx, qy), c, rounded_coverage_spec(qx - x, qy - y, w as int, h as int, r as int))
            } else {
                start.pixel(qx, qy)
            },
        decreases to - px,
    {
        let cov = rounded_coverage(px - x, py - y, w, h, r);
        if cov != 0 {
            fb.blend_pixel(px as usize, py as usize, c.fade(cov));
        }
        px += 1;
    }
}

/// Fills a `w` by `h` rectangle at `(x, y)` with its corners rounded to
/// radius `r`: the straight part of each row in one run, the arcs
/// antialiased pixel by pixel.
pub fn fill_rounded_rect<C: Canvas>(fb: &mut C, x: i32, y: i32, w: i32, h: i32, r: i32, c: Color)
    requires
        old(fb).inv(),
        i32::MIN <= x + w <= i32::MAX,
        i32::MIN <= y + h <= i32::MAX,
        capped_radius(r as int, w as int, h as int) <= REACH,
    ensures
        final(fb).inv(),
        same_frame(*old(fb), *final(fb)),
        forall|px: int, py: int| #[trigger] final(fb).pixel(px, py)
            == rounded_px::<C>(old(fb).pixel(px, py), px, py, old(fb).clip_spec(), old(fb).mode(), x as int, y as int, w as int, h as int, r as int, c),
{
    if w <= 0 || h <= 0 {
        return;
    }
    proof { fb.lemma_inv(); }
    let rr = min_i32(min_i32(max_i32(r, 0), w / 2), h / 2);
    let (cx0, cy0, cx1, cy1) = fb.bounds();
    let x0 = max_i32(x, cx0);
    let y0 = max_i32(y, cy0);
    let x1 = min_i32(x + w, cx1);
    let y1 = min_i32(y + h, cy1);
    let ghost start = *fb;
    let ghost clip = start.clip_spec();
    let mut py = y0;
    while py < y1
        invariant
            fb.inv(),
            same_frame(start, *fb),
            clip == start.clip_spec(),
            clip == (Rect { x0: cx0, y0: cy0, x1: cx1, y1: cy1 }),
            0 <= cx0, 0 <= cy0, cx1 <= CANVAS_MAX, cy1 <= CANVAS_MAX,
            i32::MIN <= x + w <= i32::MAX, i32::MIN <= y + h <= i32::MAX, 0 < w, 0 < h,
            0 <= rr <= REACH, 2 * rr <= w, 2 * rr <= h,
            rr == capped_radius(r as int, w as int, h as int),
            x0 == hi(x as int, cx0 as int), y0 == hi(y as int, cy0 as int),
            x1 == lo(x + w, cx1 as int), y1 == lo(y + h, cy1 as int),
            y0 <= py,
            forall|qx: int, qy: int| #[trigger] fb.pixel(qx, qy) == if qy < py {
                rounded_px::<C>(start.pixel(qx, qy), qx, qy, clip, start.mode(), x as int, y as int, w as int, h as int, r as int, c)
            } else {
                start.pixel(qx, qy)
            },
        decreases y1 - py,
    {
        let ghost row0 = *fb;
        let ly = py - y;
        let (run_start, run_end) = if ly >= rr && ly < h - rr {
            (x0, x1)
        } else {
            let inset = corner_inset(ly, h, rr);
            (max_i32(x + inset, x0), min_i32(x + w - inset, x1))
        };
        let a_end = if run_start <= x1 { run_start } else { x1 };
        rounded_edge(fb, x0, a_end, py, x, y, w, h, rr, c);
        if run_end > run_start {
            fb.fill_row(run_start as usize, py as usize, (run_end - run_start) as usize, c);
        }
        let b_start = max_i32(run_end, run_start);
        if b_start < x1 {
            rounded_edge(fb, b_start, x1, py, x, y, w, h, rr, c);
        }
        proof {
            assert forall|qx: int, qy: int| #[trigger] fb.pixel(qx, qy) == if qy < py + 1 {
                rounded_px::<C>(start.pixel(qx, qy), qx, qy, clip, start.mode(), x as int, y as int, w as int, h as int, r as int, c)
            } else {
                start.pixel(qx, qy)
            } by {
                assert(row0.pixel(qx, qy) == if qy < py {
                    rounded_px::<C>(start.pixel(qx, qy), qx, qy, clip, start.mode(), x as int, y as int, w as int, h as int, r as int, c)
                } else {
                    start.pixel(qx, qy)
                });
            }
        }
        py += 1;
    }
}

/// How far past its own rectangle a panel's shadow reaches sideways.
pub const SHADOW_SPREAD: i32 = 24;

/// How far below its panel a shadow sits.
pub const SHADOW_DROP: i32 = 8;

/// How dark a shadow gets at its darkest.
pub const SHADOW_PEAK: u8 = 62;

/// How far past its own rectangle a panel's shadow reaches. Damage rectangles
/// are derived from this rather than from a second copy of the numbers, so a
/// change to the shadow cannot leave a smear behind it.
pub fn shadow_bounds(x: i32, y: i32, w: i32, h: i32) -> (b: Rect)
    requires
        i32::MIN <= x - SHADOW_SPREAD, x + w + SHADOW_SPREAD <= i32::MAX,
        i32::MIN <= y + SHADOW_DROP - SHADOW_SPREAD, y + h + SHADOW_DROP + SHADOW_SPREAD <= i32::MAX,
        y + SHADOW_DROP <= i32::MAX, i32::MIN <= x + w, i32::MIN <= y + h,
    ensures
        b == (Rect {
            x0: (x - SHADOW_SPREAD) as i32,
            y0: (y + SHADOW_DROP - SHADOW_SPREAD) as i32,
            x1: (x + w + SHADOW_SPREAD) as i32,
            y1: (y + h + SHADOW_DROP + SHADOW_SPREAD) as i32,
        }),
{
    Rect::new(
        x - SHADOW_SPREAD,
        y + SHADOW_DROP - SHADOW_SPREAD,
        x + w + SHADOW_SPREAD,
        y + h + SHADOW_DROP + SHADOW_SPREAD,
    )
}

/// The shadow colour for a column weight `fx` and a row weight `fy`: the
/// product, squared for a softer edge, scaled to the peak darkness.
pub open spec fn shade_spec(fx: u8, fy: u8) -> Color {
    let weight = mul255_spec(fx, fy);
    Color { r: 30, g: 60, b: 100, a: mul255_spec(mul255_spec(weight, weight), SHADOW_PEAK) }
}

fn shade(fx: u8, fy: u8) -> (c: Color)
    ensures c == shade_spec(fx, fy),
{
    let weight = mul255(fx, fy);
    Color::rgba(30, 60, 100, mul255(mul255(weight, weight), SHADOW_PEAK))
}

/// Row `py` of a shadow borrows the shape of the nearest row of the panel.
pub open spec fn shadow_inset(py: int, y: int, h: int, r: int) -> int {
    let ly = if py - y < 0 { 0 } else if py - y > h - 1 { h - 1 } else { py - y };
    corner_inset_spec(ly, h, r)
}

/// What a panel's drop shadow does to the pixel `(px, py)`. The shadow is
/// separable, a column weight times a row weight; inside the panel's own
/// columns the row weight alone applies, and there only above and below the
/// panel, which covers the rest.
pub open spec fn shadow_px<C: Canvas>(old: Color, px: int, py: int, clip: Rect, mode: int, x: int, y: int, w: int, h: int, r: int) -> Color {
    let sy = y + SHADOW_DROP;
    let x0 = hi(x - SHADOW_SPREAD, clip.x0 as int);
    let x1 = lo(x + w + SHADOW_SPREAD, clip.x1 as int);
    let fy = falloff_spec(py, sy, h, SHADOW_SPREAD as int);
    let inset = shadow_inset(py, y, h, r);
    let span_start = x + inset;
    let span_len = w - inset * 2;
    let mid_start = hi(span_start, x0);
    let mid_end = lo(span_start + span_len, x1);
    if w > 0 && h > 0 && in_box(clip, px, py, x - SHADOW_SPREAD, sy - SHADOW_SPREAD, x + w + SHADOW_SPREAD, sy + h + SHADOW_SPREAD)
        && fy != 0 {
        if mid_start <= px < mid_end {
            if (py < y || py >= y + h) && shade_spec(255, fy).a > 0 {
                paint_of::<C>(mode, shade_spec(255, fy), old)
            } else {
                old
            }
        } else {
            let c = shade_spec(falloff_spec(px, span_start, span_len, SHADOW_SPREAD as int), fy);
            if c.a > 0 { C::blend_spec(mode, c, old) } else { old }
        }
    } else {
        old
    }
}

/// A panel's shadow never reaches past `shadow_bounds`: every pixel outside
/// them is left as it was, so damage derived from the bounds covers it.
pub proof fn lemma_shadow_within_bounds<C: Canvas>(old: Color, px: int, py: int, clip: Rect, mode: int,
    x: int, y: int, w: int, h: int, r: int)
    requires
        i32::MIN <= x - SHADOW_SPREAD, x + w + SHADOW_SPREAD <= i32::MAX,
        i32::MIN <= y + SHADOW_DROP - SHADOW_SPREAD, y + h + SHADOW_DROP + SHADOW_SPREAD <= i32::MAX,
        !(Rect {
            x0: (x - SHADOW_SPREAD) as i32,
            y0: (y + SHADOW_DROP - SHADOW_SPREAD) as i32,
            x1: (x + w + SHADOW_SPREAD) as i32,
            y1: (y + h + SHADOW_DROP + SHADOW_SPREAD) as i32,
        }).has(px, py),
    ensures shadow_px::<C>(old, px, py, clip, mode, x, y, w, h, r) == old,
{
}

/// A panel's shadow is never drawn where the panel itself will cover it:
/// in the panel's rows, between the corner insets, every pixel stays as it
/// was.
pub proof fn lemma_shadow_spares_panel<C: Canvas>(old: Color, px: int, py: int, clip: Rect, mode: int,
    x: int, y: int, w: int, h: int, r: int)
    requires
        y <= py < y + h,
        x + corner_inset_spec(py - y, h, r) <= px < x + w - corner_inset_spec(py - y, h, r),
    ensures shadow_px::<C>(old, px, py, clip, mode, x, y, w, h, r) == old,
{
}

/// Blends the feathered pixels `from..to` of shadow row `py`.
fn shadow_edge<C: Canvas>(fb: &mut C, from: i32, to: i32, py: i32, fy: u8, span_start: i32, span_len: i32)
    requires
        old(fb).inv(),
        old(fb).clip_spec().x0 <= from, to <= old(fb).clip_spec().x1,
        old(fb).clip_spec().y0 <= py < old(fb).clip_spec().y1,
        forall|px: int| from <= px < to ==> #[trigger] falloff_fits(px, span_start as int, span_len as int,
            SHADOW_SPREAD as int),
    ensures
        final(fb).inv(),
        same_frame(*old(fb), *final(fb)),
        forall|qx: int, qy: int| #[trigger] final(fb).pixel(qx, qy) == if qy == py && from <= qx < to {
            let c = shade_spec(falloff_spec(qx, span_start as int, span_len as int, SHADOW_SPREAD as int), fy);
            if c.a > 0 { C::blend_spec(old(fb).mode(), c, old(fb).pixel(qx, qy)) } else { old(fb).pixel(qx, qy) }
        } else {
            old(fb).pixel(qx, qy)
        },
{
    proof { fb.lemma_inv(); }
    let ghost start = *fb;
    let mut px = from;
    while px < to
        invariant
            fb.inv(),
            same_frame(start, *fb),
            from <= px, px <= to || px == from,
            start.clip_spec().x0 <= from, to <= start.clip_spec().x1,
            start.clip_spec().y0 <= py < start.clip_spec().y1,
            0 <= start.clip_spec().x0, 0 <= start.clip_spec().y0,
            start.clip_spec().x1 <= CANVAS_MAX,
            forall|qx: int| from <= qx < to ==> #[trigger] falloff_fits(qx, span_start as int, span_len as int,
                SHADOW_SPREAD as int),
            forall|qx: int, qy: int| #[trigger] fb.pixel(qx, qy) == if qy == py && from <= qx < px {
                let c = shade_spec(falloff_spec(qx, span_start as int, span_len as int, SHADOW_SPREAD as int), fy);
                if c.a > 0 { C::blend_spec(start.mode(), c, start.pixel(qx, qy)) } else { start.pixel(qx, qy) }
            } else {
                start.pixel(qx, qy)
            },
        decreases to - px,
    {
        let c = shade(falloff(px, span_start, span_len, SHADOW_SPREAD), fy);
        if c.a > 0 {
            fb.blend_pixel(px as usize, py as usize, c);
        }
        px += 1;
    }
}

/// A soft shadow around a rounded rect, drawn only where the panel will not
/// cover it. The falloff is separable, one weight per column times one per row,
/// which means the band directly above and below the panel has a single alpha
/// for the whole run and can be filled without touching pixels one at a time.
#[verifier::rlimit(40)]
pub fn drop_shadow<C: Canvas>(fb: &mut C, x: i32, y: i32, w: i32, h: i32, r: i32)
    requires
        old(fb).inv(),
        i32::MIN <= x - SHADOW_SPREAD,
        x + w + SHADOW_SPREAD <= i32::MAX,
        i32::MIN <= y + SHADOW_DROP - SHADOW_SPREAD,
        y + h + SHADOW_DROP + SHADOW_SPREAD <= i32::MAX,
        h + SHADOW_DROP + SHADOW_SPREAD <= i32::MAX,
        r <= REACH,
        x + r <= i32::MAX,
        i32::MIN <= w - 2 * r,
        i32::MIN <= x + w - r,
    ensures
        final(fb).inv(),
        same_frame(*old(fb), *final(fb)),
        forall|px: int, py: int| #[trigger] final(fb).pixel(px, py)
            == shadow_px::<C>(old(fb).pixel(px, py), px, py, old(fb).clip_spec(), old(fb).mode(), x as int, y as int, w as int, h as int, r as int),
{
    if w <= 0 || h <= 0 {
        return;
    }
    proof { fb.lemma_inv(); }
    let (cx0, cy0, cx1, cy1) = fb.bounds();
    let sy = y + SHADOW_DROP;
    let x0 = max_i32(x - SHADOW_SPREAD, cx0);
    let y0 = max_i32(sy - SHADOW_SPREAD, cy0);
    let x1 = min_i32(x + w + SHADOW_SPREAD, cx1);
    let y1 = min_i32(sy + h + SHADOW_SPREAD, cy1);
    let ghost start = *fb;
    let ghost clip = start.clip_spec();
    let mut py = y0;
    while py < y1
        invariant
            fb.inv(),
            same_frame(start, *fb),
            clip == start.clip_spec(),
            clip == (Rect { x0: cx0, y0: cy0, x1: cx1, y1: cy1 }),
            0 <= cx0, 0 <= cy0, cx1 <= CANVAS_MAX, cy1 <= CANVAS_MAX,
            i32::MIN <= x - SHADOW_SPREAD, x + w + SHADOW_SPREAD <= i32::MAX,
            i32::MIN <= y + SHADOW_DROP - SHADOW_SPREAD, y + h + SHADOW_DROP + SHADOW_SPREAD <= i32::MAX,
            h + SHADOW_DROP + SHADOW_SPREAD <= i32::MAX,
            r <= REACH, x + r <= i32::MAX, i32::MIN <= w - 2 * r, i32::MIN <= x + w - r, 0 < w, 0 < h,
            sy == y + SHADOW_DROP,
            x0 == hi(x - SHADOW_SPREAD, cx0 as int), y0 == hi(sy - SHADOW_SPREAD, cy0 as int),
            x1 == lo(x + w + SHADOW_SPREAD, cx1 as int), y1 == lo(sy + h + SHADOW_SPREAD, cy1 as int),
            y0 <= py,
            forall|qx: int, qy: int| #[trigger] fb.pixel(qx, qy) == if qy < py {
                shadow_px::<C>(start.pixel(qx, qy), qx, qy, clip, start.mode(), x as int, y as int, w as int, h as int, r as int)
            } else {
                start.pixel(qx, qy)
            },
        decreases y1 - py,
    {
        let ghost row0 = *fb;
        let fy = falloff(py, sy, h, SHADOW_SPREAD);
        if fy != 0 {
            // Rows above and below the panel borrow the width of the nearest row
            // of the shape, so the shadow keeps the panel's rounded ends.
            let ly = if py - y < 0 { 0 } else if py - y > h - 1 { h - 1 } else { py - y };
            let inset = corner_inset(ly, h, r);
            let span_start = x + inset;
            let span_len = w - inset * 2;
            let mid_start = max_i32(span_start, x0);
            let mid_end = min_i32(span_start + span_len, x1);
            let a_end = if mid_start <= x1 { mid_start } else { x1 };
            shadow_edge(fb, x0, a_end, py, fy, span_start, span_len);
            // Whatever the panel itself covers is not worth shading.
            if mid_end > mid_start && (py < y || py >= y + h) {
                let c = shade(255, fy);
                if c.a > 0 {
                    fb.fill_row(mid_start as usize, py as usize, (mid_end - mid_start) as usize, c);
                }
            }
            let b_start = max_i32(mid_end, mid_start);
            if b_start < x1 {
                shadow_edge(fb, b_start, x1, py, fy, span_start, span_len);
            }
        }
        proof {
            assert forall|qx: int, qy: int| #[trigger] fb.pixel(qx, qy) == if qy < py + 1 {
                shadow_px::<C>(start.pixel(qx, qy), qx, qy, clip, start.mode(), x as int, y as int, w as int, h as int, r as int)
            } else {
                start.pixel(qx, qy)
            } by {
                assert(row0.pixel(qx, qy) == if qy < py {
                    shadow_px::<C>(start.pixel(qx, qy), qx, qy, clip, start.mode(), x as int, y as int, w as int, h as int, r as int)
                } else {
                    start.pixel(qx, qy)
                });
            }
        }
        py += 1;
    }
}

/// The coverage of the rounded rect's border at local pixel `(lx, ly)`: the
/// full shape less the shape shrunk by one pixel, never below zero, which
/// leaves the outermost one-pixel ring.
pub open spec fn edge_cov(lx: int, ly: int, w: int, h: int, r: int) -> u8 {
    let full = rounded_coverage_signed_spec(lx, ly, w, h, r, 0);
    let shrunk = rounded_coverage_signed_spec(lx, ly, w, h, r, 1);
    if full >= shrunk { (full - shrunk) as u8 } else { 0 }
}

/// How many columns in from either side row `ly` of a stroked rounded rect
/// can touch the border: all of them on the top and bottom two rows, the arc
/// plus two on corner rows, two elsewhere.
pub open spec fn stroke_side(ly: int, w: int, h: int, r: int) -> int {
    if ly <= 1 || ly >= h - 2 { w } else if ly < r || ly >= h - r { r + 2 } else { 2 }
}

/// Pixel `(px, py)` is one of the columns of its row that the stroke visits.
pub open spec fn stroke_visits(px: int, py: int, x: int, y: int, w: int, h: int, r: int) -> bool {
    let side = stroke_side(py - y, w, h, r);
    side * 2 >= w || px < x + side || px >= x + w - side
}

/// What stroking the border of a rounded rect does to the pixel `(px, py)`.
pub open spec fn stroke_px<C: Canvas>(old: Color, px: int, py: int, clip: Rect, mode: int, x: int, y: int, w: int, h: int, r: int, c: Color) -> Color {
    let rr = capped_radius(r, w, h);
    if w > 0 && h > 0 && in_box(clip, px, py, x, y, x + w, y + h) && stroke_visits(px, py, x, y, w, h, rr) {
        faded_px::<C>(mode, old, c, edge_cov(px - x, py - y, w, h, rr))
    } else {
        old
    }
}

fn edge_pixel<C: Canvas>(fb: &mut C, px: i32, py: i32, x: i32, y: i32, w: i32, h: i32, r: i32, c: Color)
    requires
        old(fb).inv(),
        small(x as int), small(y as int), 0 < w <= COORD, 0 < h <= COORD, 0 <= r <= COORD,
        x <= px < x + w, y <= py < y + h,
    ensures
        final(fb).inv(),
        same_frame(*old(fb), *final(fb)),
        forall|qx: int, qy: int| #[trigger] final(fb).pixel(qx, qy) == if qx == px && qy == py
            && old(fb).clip_spec().has(qx, qy) {
            faded_px::<C>(old(fb).mode(), old(fb).pixel(qx, qy), c, edge_cov(qx - x, qy - y, w as int, h as int, r as int))
        } else {
            old(fb).pixel(qx, qy)
        },
{
    let (bx0, by0, bx1, by1) = fb.bounds();
    if px < bx0 || py < by0 || px >= bx1 || py >= by1 {
        return;
    }
    proof { fb.lemma_inv(); }
    let full = rounded_coverage_signed(px - x, py - y, w, h, r, 0);
    let shrunk = rounded_coverage_signed(px - x, py - y, w, h, r, 1);
    let edge = full.saturating_sub(shrunk);
    if edge == 0 {
        return;
    }
    fb.blend_pixel(px as usize, py as usize, c.fade(edge));
}

/// Strokes the one-pixel border of a `w` by `h` rounded rect at `(x, y)`.
pub fn stroke_rounded_rect<C: Canvas>(fb: &mut C, x: i32, y: i32, w: i32, h: i32, r: i32, c: Color)
    requires
        old(fb).inv(),
        small(x as int), small(y as int), small(w as int), small(h as int), small(r as int),
    ensures
        final(fb).inv(),
        same_frame(*old(fb), *final(fb)),
        forall|px: int, py: int| #[trigger] final(fb).pixel(px, py)
            == stroke_px::<C>(old(fb).pixel(px, py), px, py, old(fb).clip_spec(), old(fb).mode(), x as int, y as int, w as int, h as int, r as int, c),
{
    if w <= 0 || h <= 0 {
        return;
    }
    let rr = min_i32(min_i32(max_i32(r, 0), w / 2), h / 2);
    let ghost start = *fb;
    let ghost clip = start.clip_spec();
    let mut py = y;
    while py < y + h
        invariant
            fb.inv(),
            same_frame(start, *fb),
            clip == start.clip_spec(),
            small(x as int), small(y as int), 0 < w <= COORD, 0 < h <= COORD,
            0 <= rr <= COORD,
            rr == capped_radius(r as int, w as int, h as int),
            y <= py <= y + h,
            forall|qx: int, qy: int| #[trigger] fb.pixel(qx, qy) == if qy < py {
                stroke_px::<C>(start.pixel(qx, qy), qx, qy, clip, start.mode(), x as int, y as int, w as int, h as int, r as int, c)
            } else {
                start.pixel(qx, qy)
            },
        decreases y + h - py,
    {
        let ly = py - y;
        let side = if ly <= 1 || ly >= h - 2 {
            w
        } else if ly < rr || ly >= h - rr {
            rr + 2
        } else {
            2
        };
        let ghost row0 = *fb;
        let mut px = x;
        let mut limit = x + w;
        if side * 2 < w {
            limit = x + side;
        }
        // The left part of the row (or all of it).
        while px < limit
            invariant
                fb.inv(),
                same_frame(start, *fb),
                small(x as int), small(y as int), 0 < w <= COORD, 0 < h <= COORD, 0 <= rr <= COORD,
                clip == start.clip_spec(),
                y <= py < y + h,
                x <= px <= limit <= x + w,
                forall|qx: int, qy: int| #[trigger] fb.pixel(qx, qy) == if qy == py && x <= qx < px && clip.has(qx, qy) {
                    faded_px::<C>(start.mode(), row0.pixel(qx, qy), c, edge_cov(qx - x, qy - y, w as int, h as int, rr as int))
                } else {
                    row0.pixel(qx, qy)
                },
            decreases limit - px,
        {
            edge_pixel(fb, px, py, x, y, w, h, rr, c);
            px += 1;
        }
        let ghost mid = *fb;
        if side * 2 < w {
            let mut qx0 = x + w - side;
            while qx0 < x + w
                invariant
                    fb.inv(),
                    same_frame(start, *fb),
                    small(x as int), small(y as int), 0 < w <= COORD, 0 < h <= COORD, 0 <= rr <= COORD,
                    clip == start.clip_spec(),
                    y <= py < y + h,
                    0 < side, side * 2 < w,
                    x + w - side <= qx0 <= x + w,
                    forall|qx: int, qy: int| #[trigger] fb.pixel(qx, qy) == if qy == py && x + w - side <= qx < qx0 && clip.has(qx, qy) {
                        faded_px::<C>(start.mode(), mid.pixel(qx, qy), c, edge_cov(qx - x, qy - y, w as int, h as int, rr as int))
                    } else {
                        mid.pixel(qx, qy)
                    },
                decreases x + w - qx0,
            {
                edge_pixel(fb, qx0, py, x, y, w, h, rr, c);
                qx0 += 1;
            }
        }
        proof {
            assert forall|qx: int, qy: int| #[trigger] fb.pixel(qx, qy) == if qy < py + 1 {
                stroke_px::<C>(start.pixel(qx, qy), qx, qy, clip, start.mode(), x as int, y as int, w as int, h as int, r as int, c)
            } else {
                start.pixel(qx, qy)
            } by {
                assert(row0.pixel(qx, qy) == if qy < py {
                    stroke_px::<C>(start.pixel(qx, qy), qx, qy, clip, start.mode(), x as int, y as int, w as int, h as int, r as int, c)
                } else {
                    start.pixel(qx, qy)
                });
            }
        }
        py += 1;
    }
}

/// What one round bump of a cloud does to the pixel `(px, py)`: a circle
/// offset by `(dx, dy)` tenths of `scale`, of radius `r` tenths of `scale`
/// rounded, in `color` with its alpha scaled by `a / 255`.
pub open spec fn bump_px<C: Canvas>(old: Color, px: int, py: int, clip: Rect, mode: int, cx: int, cy: int, scale: int, color: Color,
    dx: int, dy: int, r: int, a: int) -> Color {
    circle_px::<C>(old, px, py, clip, mode, cx + tdiv(dx * scale, 10), cy + tdiv(dy * scale, 10), tdiv(r * scale + 5, 10),
        Color { a: (color.a as int * a / 255) as u8, ..color })
}

/// What a cloud of seven overlapping bumps does to the pixel `(px, py)`.
pub open spec fn cloud_px<C: Canvas>(old: Color, px: int, py: int, clip: Rect, mode: int, cx: int, cy: int, scale: int, color: Color) -> Color {
    let b1 = bump_px::<C>(old, px, py, clip, mode, cx, cy, scale, color, 0, 0, 16, 255);
    let b2 = bump_px::<C>(b1, px, py, clip, mode, cx, cy, scale, color, -12, 2, 12, 240);
    let b3 = bump_px::<C>(b2, px, py, clip, mode, cx, cy, scale, color, 12, 2, 12, 240);
    let b4 = bump_px::<C>(b3, px, py, clip, mode, cx, cy, scale, color, -22, 4, 9, 210);
    let b5 = bump_px::<C>(b4, px, py, clip, mode, cx, cy, scale, color, 22, 4, 9, 210);
    let b6 = bump_px::<C>(b5, px, py, clip, mode, cx, cy, scale, color, -6, -8, 11, 230);
    bump_px::<C>(b6, px, py, clip, mode, cx, cy, scale, color, 7, -7, 12, 235)
}

/// The range cloud centres and scales are sized for.
pub open spec fn cloud_ok(cx: int, cy: int, scale: int) -> bool {
    -COORD / 2 <= cx <= COORD / 2 && -COORD / 2 <= cy <= COORD / 2 && -0x1_0000 <= scale <= 0x1_0000
}

fn bump<C: Canvas>(fb: &mut C, cx: i32, cy: i32, scale: i32, color: Color, dx: i32, dy: i32, r: i32, a: u8)
    requires
        old(fb).inv(),
        cloud_ok(cx as int, cy as int, scale as int),
        -22 <= dx <= 22, -22 <= dy <= 22, 0 <= r <= 16,
    ensures
        final(fb).inv(),
        same_frame(*old(fb), *final(fb)),
        forall|px: int, py: int| #[trigger] final(fb).pixel(px, py) == bump_px::<C>(old(fb).pixel(px, py), px, py,
            old(fb).clip_spec(), old(fb).mode(), cx as int, cy as int, scale as int, color, dx as int, dy as int, r as int, a as int),
{
    assert(-22 * 0x1_0000 <= dx * scale <= 22 * 0x1_0000) by (nonlinear_arith)
        requires -22 <= dx <= 22, -0x1_0000 <= scale <= 0x1_0000;
    assert(-22 * 0x1_0000 <= dy * scale <= 22 * 0x1_0000) by (nonlinear_arith)
        requires -22 <= dy <= 22, -0x1_0000 <= scale <= 0x1_0000;
    assert(-16 * 0x1_0000 <= r * scale <= 16 * 0x1_0000) by (nonlinear_arith)
        requires 0 <= r <= 16, -0x1_0000 <= scale <= 0x1_0000;
    assert((color.a as u32) * (a as u32) <= 255 * 255) by (nonlinear_arith) requires color.a < 256, a < 256;
    assert((color.a as u32) * (a as u32) / 255 <= 255) by (nonlinear_arith) requires color.a < 256, a < 256;
    let alpha = ((color.a as u32 * a as u32) / 255) as u8;
    let radius = (r * scale + 5) / 10;
    fill_circle(fb, cx + dx * scale / 10, cy + dy * scale / 10, radius, color.with_alpha(alpha));
}

/// A cloud of seven soft round bumps around `(cx, cy)`, `scale` tenths of
/// its nominal size.
pub fn cloud<C: Canvas>(fb: &mut C, cx: i32, cy: i32, scale: i32, color: Color)
    requires
        old(fb).inv(),
        cloud_ok(cx as int, cy as int, scale as int),
    ensures
        final(fb).inv(),
        same_frame(*old(fb), *final(fb)),
        forall|px: int, py: int| #[trigger] final(fb).pixel(px, py)
            == cloud_px::<C>(old(fb).pixel(px, py), px, py, old(fb).clip_spec(), old(fb).mode(), cx as int, cy as int, scale as int, color),
{
    bump(fb, cx, cy, scale, color, 0, 0, 16, 255);
    bump(fb, cx, cy, scale, color, -12, 2, 12, 240);
    bump(fb, cx, cy, scale, color, 12, 2, 12, 240);
    bump(fb, cx, cy, scale, color, -22, 4, 9, 210);
    bump(fb, cx, cy, scale, color, 22, 4, 9, 210);
    bump(fb, cx, cy, scale, color, -6, -8, 11, 230);
    bump(fb, cx, cy, scale, color, 7, -7, 12, 235);
}

/// The alpha of a highlight line, `a` scaled by the panel's `strength`.
pub open spec fn scaled_alpha(a: int, strength: u8) -> u8 {
    ((a * strength as int) / 255) as u8
}

fn scaled(a: u32, strength: u8) -> (r: u8)
    requires a <= 255,
    ensures r == scaled_alpha(a as int, strength),
{
    assert(a * (strength as u32) <= 255 * 255) by (nonlinear_arith) requires a <= 255, strength < 256;
    assert(a * (strength as u32) / 255 <= 255) by (nonlinear_arith) requires a <= 255, strength < 256;
    ((a * strength as u32) / 255) as u8
}

/// What a frosted panel's rim light and border do to the pixel `(px, py)`:
/// three fading lines under the top edge, one above the bottom edge, then
/// the stroked border.
pub open spec fn highlights_px<C: Canvas>(old: Color, px: int, py: int, clip: Rect, mode: int, x: int, y: int, w: int, h: int, r: int, strength: u8) -> Color {
    let inset = if r >= 2 { r } else { 2 };
    let line = |a: int, row: int, prev: Color|
        rect_px::<C>(prev, px, py, clip, mode, x + inset, row, w - inset * 2, 1, Color { r: 255, g: 255, b: 255, a: scaled_alpha(a, strength) });
    let l0 = line(130, y + 1, old);
    let l1 = line(95, y + 2, l0);
    let l2 = line(60, y + 3, l1);
    let l3 = line(35, y + h - 2, l2);
    stroke_px::<C>(l3, px, py, clip, mode, x, y, w, h, r, Color { r: 255, g: 255, b: 255, a: scaled_alpha(70, strength) })
}

/// The rim light and border of a frosted panel. The tinted backdrop below it
/// comes from the frame's glass cache and the shadow from `drop_shadow`, so
/// this layer can go on top of anything.
pub fn glass_highlights<C: Canvas>(fb: &mut C, x: i32, y: i32, w: i32, h: i32, r: i32, strength: u8)
    requires
        old(fb).inv(),
        -COORD / 2 <= x <= COORD / 2, -COORD / 2 <= y <= COORD / 2,
        0 <= w <= COORD / 2, 0 <= h <= COORD / 2, -COORD / 2 <= r <= COORD / 2,
    ensures
        final(fb).inv(),
        same_frame(*old(fb), *final(fb)),
        forall|px: int, py: int| #[trigger] final(fb).pixel(px, py) == highlights_px::<C>(old(fb).pixel(px, py), px, py,
            old(fb).clip_spec(), old(fb).mode(), x as int, y as int, w as int, h as int, r as int, strength),
{
    let inset = max_i32(r, 2);
    fill_rect(fb, x + inset, y + 1, w - inset * 2, 1, Color::rgba(255, 255, 255, scaled(130, strength)));
    fill_rect(fb, x + inset, y + 2, w - inset * 2, 1, Color::rgba(255, 255, 255, scaled(95, strength)));
    fill_rect(fb, x + inset, y + 3, w - inset * 2, 1, Color::rgba(255, 255, 255, scaled(60, strength)));
    fill_rect(fb, x + inset, y + h - 2, w - inset * 2, 1, Color::rgba(255, 255, 255, scaled(35, strength)));
    stroke_rounded_rect(fb, x, y, w, h, r, Color::rgba(255, 255, 255, scaled(70, strength)));
}

/// One step of the line walk across `dx` by `dy` (both counted
/// positive): `(x, y, err)` moves along x when twice the error is at least
/// `-dy`, along y when it is at most `dx`, and stays put at the far end.
pub open spec fn line_step(s: (int, int, int), dx: int, dy: int) -> (int, int, int) {
    let (x, y, err) = s;
    if x == dx && y == dy {
        s
    } else {
        let e2 = 2 * err;
        let (x1, err1) = if e2 >= -dy { (x + 1, err - dy) } else { (x, err) };
        if e2 <= dx { (x1, y + 1, err1 + dx) } else { (x1, y, err1) }
    }
}

/// Where the line walk is after `k` steps, counted from the start.
pub open spec fn line_state(dx: int, dy: int, k: nat) -> (int, int, int)
    decreases k,
{
    if k == 0 { (0, 0, dx - dy) } else { line_step(line_state(dx, dy, (k - 1) as nat), dx, dy) }
}

/// The pixel the walk from `(x0, y0)` to `(x1, y1)` is on after `k` steps.
pub open spec fn line_pos(x0: int, y0: int, x1: int, y1: int, k: nat) -> (int, int) {
    let dx = if x1 >= x0 { x1 - x0 } else { x0 - x1 };
    let dy = if y1 >= y0 { y1 - y0 } else { y0 - y1 };
    let s = line_state(dx, dy, k);
    (if x0 < x1 { x0 + s.0 } else { x0 - s.0 }, if y0 < y1 { y0 + s.1 } else { y0 - s.1 })
}

/// Whether the line from `(x0, y0)` to `(x1, y1)` passes through `(px, py)`.
pub open spec fn on_line(x0: int, y0: int, x1: int, y1: int, px: int, py: int) -> bool {
    exists|k: nat| #[trigger] line_pos(x0, y0, x1, y1, k) == (px, py)
}

/// What drawing the line does to the pixel `(px, py)`.
pub open spec fn line_px<C: Canvas>(old: Color, px: int, py: int, clip: Rect, mode: int, x0: int, y0: int, x1: int, y1: int,
    c: Color) -> Color {
    if on_line(x0, y0, x1, y1, px, py) && clip.has(px, py) { paint_of::<C>(mode, c, old) } else { old }
}

/// The walk's bookkeeping: it is `(x, y)` steps into a `dx` by `dy` box,
/// the error term says how far off the ideal line it is, and that error
/// stays within a few times the box's size.
pub open spec fn line_ok(s: (int, int, int), dx: int, dy: int) -> bool {
    let (x, y, err) = s;
    &&& 0 <= x <= dx && 0 <= y <= dy
    &&& err == dx * (1 + y) - dy * (1 + x)
    &&& dx - 3 * dy <= 2 * err <= 3 * dx - dy
}

/// A step keeps the bookkeeping, never leaves the box, and moves on
/// until the far end.
proof fn lemma_line_step(s: (int, int, int), dx: int, dy: int)
    requires line_ok(s, dx, dy),
    ensures
        line_ok(line_step(s, dx, dy), dx, dy),
        line_step(s, dx, dy).0 >= s.0,
        line_step(s, dx, dy).1 >= s.1,
        !(s.0 == dx && s.1 == dy) ==> line_step(s, dx, dy).0 + line_step(s, dx, dy).1 > s.0 + s.1,
{
    let (x, y, err) = s;
    if !(x == dx && y == dy) {
        if x == dx {
            assert(2 * err < -dy) by (nonlinear_arith)
                requires err == dx * (1 + y) - dy * (1 + x), x == dx, 0 <= y < dy, 0 <= dx;
        }
        if y == dy {
            assert(2 * err > dx) by (nonlinear_arith)
                requires err == dx * (1 + y) - dy * (1 + x), y == dy, 0 <= x < dx, 0 <= dy;
        }
        assert(dx * (1 + (y + 1)) == dx * (1 + y) + dx) by (nonlinear_arith);
        assert(dy * (1 + (x + 1)) == dy * (1 + x) + dy) by (nonlinear_arith);
    }
}

/// Once the walk reaches the far end it stays there.
proof fn lemma_line_rests(dx: int, dy: int, n: nat, k: nat)
    requires
        n <= k,
        line_state(dx, dy, n).0 == dx,
        line_state(dx, dy, n).1 == dy,
    ensures line_state(dx, dy, k) == line_state(dx, dy, n),
    decreases k - n,
{
    if n < k {
        lemma_line_rests(dx, dy, n, (k - 1) as nat);
    }
}

/// Before the far end, later steps are further along.
proof fn lemma_line_ascends(dx: int, dy: int, k: nat, i: nat)
    requires
        0 <= dx, 0 <= dy,
        k < i,
        !(line_state(dx, dy, (i - 1) as nat).0 == dx && line_state(dx, dy, (i - 1) as nat).1 == dy),
    ensures
        line_state(dx, dy, k).0 + line_state(dx, dy, k).1 < line_state(dx, dy, i).0 + line_state(dx, dy, i).1,
        line_ok(line_state(dx, dy, i), dx, dy),
    decreases i,
{
    lemma_line_walk(dx, dy, (i - 1) as nat);
    lemma_line_step(line_state(dx, dy, (i - 1) as nat), dx, dy);
    if k < i - 1 {
        let p = line_state(dx, dy, (i - 2) as nat);
        lemma_line_walk(dx, dy, (i - 2) as nat);
        if p.0 == dx && p.1 == dy {
            assert(line_state(dx, dy, (i - 1) as nat) == p);
        }
        lemma_line_ascends(dx, dy, k, (i - 1) as nat);
    }
}

/// Every state of the walk keeps the bookkeeping.
proof fn lemma_line_walk(dx: int, dy: int, k: nat)
    requires 0 <= dx, 0 <= dy,
    ensures line_ok(line_state(dx, dy, k), dx, dy),
    decreases k,
{
    if k == 0 {
        assert(dx * (1 + 0) - dy * (1 + 0) == dx - dy) by (nonlinear_arith);
    } else {
        lemma_line_walk(dx, dy, (k - 1) as nat);
        lemma_line_step(line_state(dx, dy, (k - 1) as nat), dx, dy);
    }
}

/// Draws a one-pixel line from `(x0, y0)` to `(x1, y1)`, both ends included,
/// stepping diagonally where the line runs between the axes.
pub fn draw_line<C: Canvas>(fb: &mut C, x0: i32, y0: i32, x1: i32, y1: i32, c: Color)
    requires
        old(fb).inv(),
        small(x0 as int), small(y0 as int), small(x1 as int), small(y1 as int),
    ensures
        final(fb).inv(),
        same_frame(*old(fb), *final(fb)),
        forall|px: int, py: int| #[trigger] final(fb).pixel(px, py)
            == line_px::<C>(old(fb).pixel(px, py), px, py, old(fb).clip_spec(), old(fb).mode(), x0 as int, y0 as int,
                x1 as int, y1 as int, c),
{
    let dx = if x1 >= x0 { x1 - x0 } else { x0 - x1 };
    let dy = -(if y1 >= y0 { y1 - y0 } else { y0 - y1 });
    let sx: i32 = if x0 < x1 { 1 } else { -1 };
    let sy: i32 = if y0 < y1 { 1 } else { -1 };
    let mut err = dx + dy;
    let mut x = x0;
    let mut y = y0;
    proof { fb.lemma_inv(); }
    let (bx0, by0, bx1, by1) = fb.bounds();
    let ghost start = *fb;
    let ghost big_dx = dx as int;
    let ghost big_dy = -dy as int;
    let ghost mut i: nat = 0;
    proof {
        lemma_line_walk(big_dx, big_dy, 0);
        assert(line_state(big_dx, big_dy, 0) == (0int, 0int, big_dx - big_dy));
    }
    loop
        invariant_except_break
            start.clip_spec() == (Rect { x0: bx0, y0: by0, x1: bx1, y1: by1 }),
            0 <= bx0, 0 <= by0, bx1 <= CANVAS_MAX, by1 <= CANVAS_MAX,
            small(x0 as int), small(y0 as int), small(x1 as int), small(y1 as int),
            big_dx == (if x1 >= x0 { x1 - x0 } else { x0 - x1 }),
            big_dy == (if y1 >= y0 { y1 - y0 } else { y0 - y1 }),
            dx == big_dx, dy == -big_dy,
            sx == (if x0 < x1 { 1int } else { -1int }),
            sy == (if y0 < y1 { 1int } else { -1int }),
            line_ok(line_state(big_dx, big_dy, i), big_dx, big_dy),
            err == line_state(big_dx, big_dy, i).2,
            (x as int, y as int) == line_pos(x0 as int, y0 as int, x1 as int, y1 as int, i),
            forall|k: nat| k < i ==> !(#[trigger] line_state(big_dx, big_dy, k).0 == big_dx && line_state(big_dx, big_dy, k).1 == big_dy),
            forall|qx: int, qy: int| #[trigger] fb.pixel(qx, qy) == if
                (exists|k: nat| k < i && #[trigger] line_pos(x0 as int, y0 as int, x1 as int, y1 as int, k) == (qx, qy))
                && start.clip_spec().has(qx, qy) {
                paint_of::<C>(start.mode(), c, start.pixel(qx, qy))
            } else {
                start.pixel(qx, qy)
            },
        invariant
            fb.inv(),
            same_frame(start, *fb),
        ensures
            forall|px: int, py: int| #[trigger] fb.pixel(px, py)
                == line_px::<C>(start.pixel(px, py), px, py, start.clip_spec(), start.mode(), x0 as int, y0 as int,
                    x1 as int, y1 as int, c),
        decreases (big_dx - line_state(big_dx, big_dy, i).0) + (big_dy - line_state(big_dx, big_dy, i).1),
    {
        let ghost before = *fb;
        proof {
            // The pixel this step lands on was not painted before.
            assert forall|k: nat| k < i implies #[trigger] line_pos(x0 as int, y0 as int, x1 as int, y1 as int, k) != (x as int, y as int) by {
                lemma_line_ascends(big_dx, big_dy, k, i);
                lemma_line_walk(big_dx, big_dy, k);
            }
        }
        if x >= bx0 && y >= by0 && x < bx1 && y < by1 {
            fb.paint(x as usize, y as usize, c);
        }
        proof {
            assert forall|qx: int, qy: int| #[trigger] fb.pixel(qx, qy) == if
                (exists|k: nat| k < i + 1 && #[trigger] line_pos(x0 as int, y0 as int, x1 as int, y1 as int, k) == (qx, qy))
                && start.clip_spec().has(qx, qy) {
                paint_of::<C>(start.mode(), c, start.pixel(qx, qy))
            } else {
                start.pixel(qx, qy)
            } by {
                if qx == x && qy == y {
                    assert(line_pos(x0 as int, y0 as int, x1 as int, y1 as int, i) == (qx, qy));
                    assert(!(exists|k: nat| k < i && #[trigger] line_pos(x0 as int, y0 as int, x1 as int, y1 as int, k) == (qx, qy)));
                } else {
                    if exists|k: nat| k < i + 1 && #[trigger] line_pos(x0 as int, y0 as int, x1 as int, y1 as int, k) == (qx, qy) {
                        let k = choose|k: nat| k < i + 1 && #[trigger] line_pos(x0 as int, y0 as int, x1 as int, y1 as int, k) == (qx, qy);
                        assert(k < i);
                    }
                }
            }
        }
        if x == x1 && y == y1 {
            proof {
                let st = line_state(big_dx, big_dy, i);
                assert(st.0 == big_dx && st.1 == big_dy);
                assert forall|qx: int, qy: int| on_line(x0 as int, y0 as int, x1 as int, y1 as int, qx, qy)
                    <==> (exists|k: nat| k < i + 1 && #[trigger] line_pos(x0 as int, y0 as int, x1 as int, y1 as int, k) == (qx, qy)) by {
                    if on_line(x0 as int, y0 as int, x1 as int, y1 as int, qx, qy) {
                        let k = choose|k: nat| #[trigger] line_pos(x0 as int, y0 as int, x1 as int, y1 as int, k) == (qx, qy);
                        if k > i {
                            lemma_line_rests(big_dx, big_dy, i, k);
                            assert(line_pos(x0 as int, y0 as int, x1 as int, y1 as int, i) == (qx, qy));
                        }
                    }
                }
            }
            break;
        }
        let ghost s = line_state(big_dx, big_dy, i);
        proof {
            assert(!(s.0 == big_dx && s.1 == big_dy));
            lemma_line_step(s, big_dx, big_dy);
        }
        let e2 = 2 * err;
        if e2 >= dy {
            err += dy;
            x += sx;
        }
        if e2 <= dx {
            err += dx;
            y += sy;
        }
        proof {
            i = i + 1;
            assert(line_state(big_dx, big_dy, i) == line_step(s, big_dx, big_dy));
        }
    }
}

} // verus!
