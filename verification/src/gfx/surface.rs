use vstd::prelude::*;
use super::canvas::{Canvas, CANVAS_MAX, same_frame, paint_of};
use super::color::Color;
use super::coverage::{REACH, rounded_coverage, rounded_coverage_spec};
use super::rect::{Rect, min_i32, max_i32};

verus! {

/// An RGBA image in memory that apps draw into and the compositor blits.
pub struct Surface {
    width: usize,
    height: usize,
    clip: Rect,
    pixels: Vec<Color>,
}

/// Pixel `(x, y)` of a `w` wide row-major image lives at `y * w + x`, and no
/// two pixels share a slot.
proof fn lemma_slot(w: int, h: int, x: int, y: int, x2: int, y2: int)
    requires 0 <= x < w, 0 <= y < h, 0 <= x2 < w, 0 <= y2 < h,
    ensures
        0 <= y * w + x < w * h,
        (y * w + x == y2 * w + x2) <==> (x == x2 && y == y2),
{
    assert(0 <= y * w + x < w * h) by (nonlinear_arith) requires 0 <= x < w, 0 <= y < h;
    if y * w + x == y2 * w + x2 {
        assert(y == y2 && x == x2) by (nonlinear_arith)
            requires y * w + x == y2 * w + x2, 0 <= x < w, 0 <= x2 < w, 0 <= y, 0 <= y2;
    }
}

/// The full-surface rectangle.
pub open spec fn surface_rect(w: int, h: int) -> Rect {
    Rect { x0: 0, y0: 0, x1: w as i32, y1: h as i32 }
}

/// What `round_corners` does to the alpha of pixel `(x, y)` of a `w` by `h`
/// surface: outside the straight middle columns of a rounded end it is scaled
/// by the corner's coverage.
pub open spec fn corner_alpha(a: u8, x: int, y: int, w: int, h: int, radius: int, top: bool, bottom: bool) -> u8 {
    let in_top = y < radius;
    let in_bottom = y >= h - radius;
    if !(in_top && top) && !(in_bottom && bottom) {
        a
    } else if x >= radius && x < w - radius {
        a
    } else {
        let cov = rounded_coverage_spec(x, y, w, h, radius);
        if cov == 255 { a } else { (a as int * cov as int / 255) as u8 }
    }
}

impl Surface {
    pub fn new(width: usize, height: usize) -> (s: Surface)
        requires
            width <= CANVAS_MAX,
            height <= CANVAS_MAX,
            width * height <= usize::MAX,
        ensures
            s.inv(),
            s.width_spec() == width,
            s.height_spec() == height,
            s.clip_spec() == surface_rect(width as int, height as int),
            forall|x: int, y: int| #[trigger] s.pixel(x, y) == Color::transparent(),
    {
        let s = Surface {
            width,
            height,
            clip: Rect::new(0, 0, width as i32, height as i32),
            pixels: vec![Color::transparent(); width * height],
        };
        proof {
            assert forall|x: int, y: int| #[trigger] s.pixel(x, y) == Color::transparent() by {
                if 0 <= x < width && 0 <= y < height {
                    lemma_slot(width as int, height as int, x, y, x, y);
                }
            }
        }
        s
    }

    pub fn full_rect(&self) -> (r: Rect)
        requires self.inv(),
        ensures r == surface_rect(self.width_spec(), self.height_spec()),
    {
        Rect::new(0, 0, self.width as i32, self.height as i32)
    }

    /// Confines later writes to `rect`, intersected with the surface.
    pub fn set_clip(&mut self, rect: Rect)
        requires old(self).inv(),
        ensures
            final(self).inv(),
            final(self).width_spec() == old(self).width_spec(),
            final(self).height_spec() == old(self).height_spec(),
            final(self).clip_spec() == rect.intersect_spec(surface_rect(old(self).width_spec(), old(self).height_spec())),
            forall|x: int, y: int| #[trigger] final(self).pixel(x, y) == old(self).pixel(x, y),
    {
        self.clip = rect.intersect(&self.full_rect());
    }

    fn at(&self, x: usize, y: usize) -> (c: Color)
        requires self.inv(), x < self.width, y < self.height,
        ensures c == self.pixel(x as int, y as int),
    {
        proof { lemma_slot(self.width as int, self.height as int, x as int, y as int, x as int, y as int); }
        self.pixels[y * self.width + x]
    }

    /// Writes slot `(x, y)` directly, ignoring the clip.
    fn set_at(&mut self, x: usize, y: usize, c: Color)
        requires old(self).inv(), x < old(self).width, y < old(self).height,
        ensures
            final(self).inv(),
            final(self).width == old(self).width,
            final(self).height == old(self).height,
            final(self).clip == old(self).clip,
            forall|px: int, py: int| #[trigger] final(self).pixel(px, py)
                == if px == x && py == y { c } else { old(self).pixel(px, py) },
    {
        let ghost w = self.width as int;
        let ghost h = self.height as int;
        proof { lemma_slot(w, h, x as int, y as int, x as int, y as int); }
        let idx = y * self.width + x;
        self.pixels.set(idx, c);
        proof {
            assert forall|px: int, py: int| #[trigger] self.pixel(px, py)
                == if px == x && py == y { c } else { old(self).pixel(px, py) } by {
                if 0 <= px < w && 0 <= py < h {
                    lemma_slot(w, h, x as int, y as int, px, py);
                    lemma_slot(w, h, px, py, px, py);
                    assert(self.pixels@[py * w + px] == old(self).pixels@.update(idx as int, c)[py * w + px]);
                }
            }
        }
    }

    /// Cuts the corners of the top and/or bottom edge to radius `radius`
    /// (capped at half of either side), scaling each pixel's alpha by how
    /// much of it the rounded shape covers. Only the clip is touched.
    pub fn round_corners(&mut self, radius: i32, top: bool, bottom: bool)
        requires
            old(self).inv(),
            min_r(radius as int, old(self).width_spec(), old(self).height_spec()) <= REACH,
        ensures
            final(self).inv(),
            same_frame(*old(self), *final(self)),
            forall|x: int, y: int| #[trigger] final(self).pixel(x, y) == if radius > 0
                && old(self).clip_spec().has(x, y) {
                Color {
                    a: corner_alpha(old(self).pixel(x, y).a, x, y, old(self).width_spec(), old(self).height_spec(),
                        min_r(radius as int, old(self).width_spec(), old(self).height_spec()), top, bottom),
                    ..old(self).pixel(x, y)
                }
            } else {
                old(self).pixel(x, y)
            },
    {
        if radius <= 0 {
            return;
        }
        let w = self.width as i32;
        let h = self.height as i32;
        let rad = min_i32(min_i32(radius, w / 2), h / 2);
        let ghost start = *self;
        let y_end = min_i32(self.clip.y1, h);
        let x_start = max_i32(self.clip.x0, 0);
        let x_end = min_i32(self.clip.x1, w);
        let mut y = max_i32(self.clip.y0, 0);
        while y < y_end
            invariant
                self.inv(),
                same_frame(start, *self),
                w == self.width, h == self.height,
                0 <= rad <= REACH,
                rad == min_r(radius as int, w as int, h as int),
                y_end == min_i32_spec(start.clip.y1 as int, h as int),
                x_start == max_i32_spec(start.clip.x0 as int, 0),
                x_end == min_i32_spec(start.clip.x1 as int, w as int),
                max_i32_spec(start.clip.y0 as int, 0) <= y,
                forall|px: int, py: int| #[trigger] self.pixel(px, py) == if start.clip_spec().has(px, py) && py < y {
                    Color { a: corner_alpha(start.pixel(px, py).a, px, py, w as int, h as int, rad as int, top, bottom), ..start.pixel(px, py) }
                } else {
                    start.pixel(px, py)
                },
            decreases y_end - y,
        {
            let mut x = x_start;
            while x < x_end
                invariant
                    self.inv(),
                    same_frame(start, *self),
                    w == self.width, h == self.height,
                    0 <= rad <= REACH,
                    start.clip_spec().has(x_start as int, y as int) || x_start >= x_end,
                    0 <= y < h, y < y_end,
                    y_end == min_i32_spec(start.clip.y1 as int, h as int),
                    x_start == max_i32_spec(start.clip.x0 as int, 0),
                    x_end == min_i32_spec(start.clip.x1 as int, w as int),
                    max_i32_spec(start.clip.y0 as int, 0) <= y,
                    x_start <= x,
                    forall|px: int, py: int| #[trigger] self.pixel(px, py) == if start.clip_spec().has(px, py)
                        && (py < y || (py == y && px < x)) {
                        Color { a: corner_alpha(start.pixel(px, py).a, px, py, w as int, h as int, rad as int, top, bottom), ..start.pixel(px, py) }
                    } else {
                        start.pixel(px, py)
                    },
                decreases x_end - x,
            {
                let in_top = y < rad;
                let in_bottom = y >= h - rad;
                let old_c = self.at(x as usize, y as usize);
                let mut new_c = old_c;
                if (in_top && top) || (in_bottom && bottom) {
                    if !(x >= rad && x < w - rad) {
                        let cov = rounded_coverage(x, y, w, h, rad);
                        if cov != 255 {
                            assert(old_c.a as u32 * cov as u32 <= 255 * 255) by (nonlinear_arith)
                                requires old_c.a < 256, cov < 256;
                            let a = old_c.a as u32 * cov as u32 / 255;
                            new_c = Color { a: a as u8, ..old_c };
                        }
                    }
                }
                self.set_at(x as usize, y as usize, new_c);
                x += 1;
            }
            y += 1;
        }
    }
}

impl Surface {
    /// Sets every pixel of `rect`, cut to the surface, to `c`, ignoring the
    /// clip.
    pub fn clear_rect(&mut self, rect: Rect, c: Color)
        requires old(self).inv(),
        ensures
            final(self).inv(),
            same_frame(*old(self), *final(self)),
            forall|x: int, y: int| #[trigger] final(self).pixel(x, y) == if rect.has(x, y)
                && surface_rect(old(self).width_spec(), old(self).height_spec()).has(x, y) {
                c
            } else {
                old(self).pixel(x, y)
            },
    {
        let rect = rect.intersect(&self.full_rect());
        if rect.is_empty() {
            return;
        }
        let ghost start = *self;
        let mut y = rect.y0;
        while y < rect.y1
            invariant
                self.inv(),
                same_frame(start, *self),
                self.width == start.width, self.height == start.height,
                0 <= rect.x0 < rect.x1 <= self.width, 0 <= rect.y0 <= y <= rect.y1 <= self.height,
                forall|px: int, py: int| #[trigger] self.pixel(px, py) == if rect.has(px, py) && py < y {
                    c
                } else {
                    start.pixel(px, py)
                },
            decreases rect.y1 - y,
        {
            let mut x = rect.x0;
            while x < rect.x1
                invariant
                    self.inv(),
                    same_frame(start, *self),
                    self.width == start.width, self.height == start.height,
                    0 <= rect.x0 <= x <= rect.x1 <= self.width, 0 <= rect.y0 <= y < rect.y1 <= self.height,
                    forall|px: int, py: int| #[trigger] self.pixel(px, py) == if rect.has(px, py)
                        && (py < y || (py == y && px < x)) {
                        c
                    } else {
                        start.pixel(px, py)
                    },
                decreases rect.x1 - x,
            {
                self.set_at(x as usize, y as usize, c);
                x += 1;
            }
            y += 1;
        }
    }

    /// Composites the surface scaled into the `out_w` by `out_h` box at
    /// `(origin_x, origin_y)` of `dst`, faded to `opacity`. Each destination
    /// pixel samples the source pixel `step / 65536` source pixels per
    /// destination pixel from the box's corner (nearest below); transparent
    /// samples are skipped.
    pub fn blit_scaled<C: Canvas>(&self, dst: &mut C, origin_x: i32, origin_y: i32, out_w: i32, out_h: i32, step: i64,
        opacity: u8)
        requires
            self.inv(),
            old(dst).inv(),
            i32::MIN <= origin_x + out_w <= i32::MAX,
            i32::MIN <= origin_y + out_h <= i32::MAX,
            0 <= step <= i32::MAX,
        ensures
            final(dst).inv(),
            same_frame(*old(dst), *final(dst)),
            forall|px: int, py: int| #[trigger] final(dst).pixel(px, py) == scaled_px::<C>(old(dst).pixel(px, py), px, py,
                old(dst).clip_spec(), old(dst).mode(), *self, origin_x as int, origin_y as int, out_w as int, out_h as int,
                step as int, opacity),
    {
        if opacity == 0 || out_w <= 0 || out_h <= 0 {
            return;
        }
        proof { dst.lemma_inv(); }
        let (cx0, cy0, cx1, cy1) = dst.bounds();
        let x0 = max_i32(origin_x, cx0);
        let y0 = max_i32(origin_y, cy0);
        let x1 = min_i32(origin_x + out_w, cx1);
        let y1 = min_i32(origin_y + out_h, cy1);
        if x1 <= x0 || y1 <= y0 {
            return;
        }
        let ghost start = *dst;
        let mut py = y0;
        while py < y1
            invariant
                self.inv(),
                dst.inv(),
                same_frame(start, *dst),
                opacity != 0, out_w > 0, out_h > 0,
                0 <= step <= i32::MAX,
                start.clip_spec() == (Rect { x0: cx0, y0: cy0, x1: cx1, y1: cy1 }),
                0 <= cx0, 0 <= cy0, cx1 <= CANVAS_MAX, cy1 <= CANVAS_MAX,
                i32::MIN <= origin_x + out_w <= i32::MAX, i32::MIN <= origin_y + out_h <= i32::MAX,
                x0 == max_i32_spec(origin_x as int, cx0 as int), y0 == max_i32_spec(origin_y as int, cy0 as int),
                x1 == min_i32_spec(origin_x + out_w, cx1 as int), y1 == min_i32_spec(origin_y + out_h, cy1 as int),
                x0 < x1, y0 <= py,
                forall|qx: int, qy: int| #[trigger] dst.pixel(qx, qy) == if qy < py {
                    scaled_px::<C>(start.pixel(qx, qy), qx, qy, start.clip_spec(), start.mode(), *self, origin_x as int,
                        origin_y as int, out_w as int, out_h as int, step as int, opacity)
                } else {
                    start.pixel(qx, qy)
                },
            decreases y1 - py,
        {
            assert(0 <= (py - origin_y) as i64 * step <= 0x7fff_ffff * 0x7fff_ffff) by (nonlinear_arith)
                requires 0 <= py - origin_y <= 0x7fff_ffff, 0 <= step <= 0x7fff_ffff;
            let prod_y: i64 = (py - origin_y) as i64 * step;
            assert(prod_y >> 16u64 == prod_y / 65536) by (bit_vector)
                requires prod_y >= 0;
            let sy64 = prod_y >> 16u64;
            if sy64 < self.height as i64 {
                let sy = sy64 as usize;
                let mut px = x0;
                while px < x1
                    invariant
                        self.inv(),
                        dst.inv(),
                        same_frame(start, *dst),
                        opacity != 0, out_w > 0, out_h > 0,
                        0 <= step <= i32::MAX,
                        start.clip_spec() == (Rect { x0: cx0, y0: cy0, x1: cx1, y1: cy1 }),
                        0 <= cx0, 0 <= cy0, cx1 <= CANVAS_MAX, cy1 <= CANVAS_MAX,
                        i32::MIN <= origin_x + out_w <= i32::MAX, i32::MIN <= origin_y + out_h <= i32::MAX,
                        x0 == max_i32_spec(origin_x as int, cx0 as int), y0 == max_i32_spec(origin_y as int, cy0 as int),
                        x1 == min_i32_spec(origin_x + out_w, cx1 as int), y1 == min_i32_spec(origin_y + out_h, cy1 as int),
                        x0 <= px, y0 <= py < y1,
                        sy == (py - origin_y) * step / 65536, sy < self.height,
                        forall|qx: int, qy: int| #[trigger] dst.pixel(qx, qy) == if qy < py || (qy == py && qx < px) {
                            scaled_px::<C>(start.pixel(qx, qy), qx, qy, start.clip_spec(), start.mode(), *self, origin_x as int,
                                origin_y as int, out_w as int, out_h as int, step as int, opacity)
                        } else {
                            start.pixel(qx, qy)
                        },
                    decreases x1 - px,
                {
                    assert(0 <= (px - origin_x) as i64 * step <= 0x7fff_ffff * 0x7fff_ffff) by (nonlinear_arith)
                        requires 0 <= px - origin_x <= 0x7fff_ffff, 0 <= step <= 0x7fff_ffff;
                    let prod_x: i64 = (px - origin_x) as i64 * step;
                    assert(prod_x >> 16u64 == prod_x / 65536) by (bit_vector)
                        requires prod_x >= 0;
                    let sx64 = prod_x >> 16u64;
                    if sx64 < self.width as i64 {
                        let sx = sx64 as usize;
                        let src = self.at(sx, sy);
                        if src.a != 0 {
                            dst.paint(px as usize, py as usize, src.fade(opacity));
                        }
                    }
                    px += 1;
                }
            }
            py += 1;
        }
    }

    /// Composites the whole surface, faded to `opacity`, into `dst` with its
    /// top-left corner at `(x, y)`; transparent pixels are skipped.
    pub fn blit<C: Canvas>(&self, dst: &mut C, x: i32, y: i32, opacity: u8)
        requires
            self.inv(),
            old(dst).inv(),
            x + self.width_spec() <= i32::MAX,
            y + self.height_spec() <= i32::MAX,
        ensures
            final(dst).inv(),
            same_frame(*old(dst), *final(dst)),
            forall|px: int, py: int| #[trigger] final(dst).pixel(px, py) == if opacity != 0
                && old(dst).clip_spec().has(px, py)
                && surface_rect(self.width_spec(), self.height_spec()).has(px - x, py - y)
                && self.pixel(px - x, py - y).a != 0 {
                paint_of::<C>(old(dst).mode(), self.pixel(px - x, py - y).fade_spec(opacity), old(dst).pixel(px, py))
            } else {
                old(dst).pixel(px, py)
            },
    {
        if opacity == 0 {
            return;
        }
        proof { dst.lemma_inv(); }
        let (cx0, cy0, cx1, cy1) = dst.bounds();
        let x0 = max_i32(x, cx0);
        let y0 = max_i32(y, cy0);
        let x1 = min_i32(x + self.width as i32, cx1);
        let y1 = min_i32(y + self.height as i32, cy1);
        if x1 <= x0 || y1 <= y0 {
            return;
        }
        let ghost start = *dst;
        let sx = (x0 - x) as usize;
        let run = (x1 - x0) as usize;
        let mut py = y0;
        while py < y1
            invariant
                self.inv(),
                dst.inv(),
                same_frame(start, *dst),
                opacity != 0,
                start.clip_spec() == (Rect { x0: cx0, y0: cy0, x1: cx1, y1: cy1 }),
                0 <= cx0, 0 <= cy0, cx1 <= CANVAS_MAX, cy1 <= CANVAS_MAX,
                x + self.width <= i32::MAX, y + self.height <= i32::MAX,
                x0 == max_i32_spec(x as int, cx0 as int), y0 == max_i32_spec(y as int, cy0 as int),
                x1 == min_i32_spec(x + self.width, cx1 as int), y1 == min_i32_spec(y + self.height, cy1 as int),
                x0 < x1, y0 <= py <= y1,
                sx == x0 - x, run == x1 - x0,
                forall|px: int, qy: int| #[trigger] dst.pixel(px, qy) == if qy < py
                    && start.clip_spec().has(px, qy)
                    && surface_rect(self.width_spec(), self.height_spec()).has(px - x, qy - y)
                    && self.pixel(px - x, qy - y).a != 0 {
                    paint_of::<C>(start.mode(), self.pixel(px - x, qy - y).fade_spec(opacity), start.pixel(px, qy))
                } else {
                    start.pixel(px, qy)
                },
            decreases y1 - py,
        {
            let row = (py - y) as usize;
            proof {
                lemma_slot(self.width as int, self.height as int, sx as int, row as int, sx as int, row as int);
                lemma_slot(self.width as int, self.height as int, (sx + run - 1) as int, row as int, (sx + run - 1) as int, row as int);
            }
            let start_idx = row * self.width + sx;
            let src = &self.pixels.as_slice()[start_idx..start_idx + run];
            proof {
                assert forall|k: int| 0 <= k < run implies #[trigger] src@[k] == self.pixel(sx + k, row as int) by {
                    lemma_slot(self.width as int, self.height as int, sx + k, row as int, sx + k, row as int);
                }
            }
            let ghost before = *dst;
            dst.blend_row(x0 as usize, py as usize, src, opacity);
            proof {
                assert forall|px: int, qy: int| #[trigger] dst.pixel(px, qy) == if qy < py + 1
                    && start.clip_spec().has(px, qy)
                    && surface_rect(self.width_spec(), self.height_spec()).has(px - x, qy - y)
                    && self.pixel(px - x, qy - y).a != 0 {
                    paint_of::<C>(start.mode(), self.pixel(px - x, qy - y).fade_spec(opacity), start.pixel(px, qy))
                } else {
                    start.pixel(px, qy)
                } by {
                    if qy == py && x0 <= px < x1 {
                        assert(src@[px - x0] == self.pixel(px - x, qy - y));
                    }
                }
            }
            py += 1;
        }
    }
}

/// What scaling a surface into the `out_w` by `out_h` box at
/// `(origin_x, origin_y)` does to the pixel `(px, py)`: it samples the source
/// `step / 65536` pixels per pixel from the box's corner.
pub open spec fn scaled_px<C: Canvas>(old: Color, px: int, py: int, clip: Rect, mode: int, src: Surface,
    origin_x: int, origin_y: int, out_w: int, out_h: int, step: int, opacity: u8) -> Color {
    let sx = (px - origin_x) * step / 65536;
    let sy = (py - origin_y) * step / 65536;
    if opacity != 0 && out_w > 0 && out_h > 0
        && origin_x <= px < origin_x + out_w && origin_y <= py < origin_y + out_h && clip.has(px, py)
        && sx < src.width_spec() && sy < src.height_spec() && src.pixel(sx, sy).a != 0 {
        paint_of::<C>(mode, src.pixel(sx, sy).fade_spec(opacity), old)
    } else {
        old
    }
}

pub open spec fn min_i32_spec(a: int, b: int) -> i32 {
    (if a <= b { a } else { b }) as i32
}

pub open spec fn max_i32_spec(a: int, b: int) -> i32 {
    (if a >= b { a } else { b }) as i32
}

/// A corner radius capped at half of either side.
pub open spec fn min_r(r: int, w: int, h: int) -> int {
    let a = if r <= w / 2 { r } else { w / 2 };
    if a <= h / 2 { a } else { h / 2 }
}

impl Canvas for Surface {
    closed spec fn inv(&self) -> bool {
        &&& self.width <= CANVAS_MAX
        &&& self.height <= CANVAS_MAX
        &&& self.width * self.height <= usize::MAX
        &&& self.pixels@.len() == self.width * self.height
        &&& 0 <= self.clip.x0 && 0 <= self.clip.y0
        &&& self.clip.x1 <= self.width && self.clip.y1 <= self.height
    }

    closed spec fn width_spec(&self) -> int {
        self.width as int
    }

    closed spec fn height_spec(&self) -> int {
        self.height as int
    }

    closed spec fn clip_spec(&self) -> Rect {
        self.clip
    }

    closed spec fn pixel(&self, x: int, y: int) -> Color {
        if 0 <= x < self.width && 0 <= y < self.height {
            self.pixels@[y * self.width + x]
        } else {
            Color::transparent()
        }
    }

    /// A surface has a single way of storing colours.
    open spec fn mode(&self) -> int {
        0
    }

    /// A surface keeps every colour as it is written.
    open spec fn store_spec(mode: int, c: Color) -> Color {
        c
    }

    /// Straight-alpha "over"; a fully transparent source changes nothing.
    open spec fn blend_spec(mode: int, src: Color, dst: Color) -> Color {
        if src.a == 0 { dst } else { src.over_straight_spec(dst) }
    }

    proof fn lemma_inv(&self) {
    }

    fn width(&self) -> (r: usize) {
        self.width
    }

    fn height(&self) -> (r: usize) {
        self.height
    }

    fn clip(&self) -> (r: Rect) {
        self.clip
    }

    fn put_pixel(&mut self, x: usize, y: usize, c: Color) {
        if !self.clip.contains(x, y) {
            return;
        }
        proof { lemma_usize_as_i64(x); lemma_usize_as_i64(y); }
        self.set_at(x, y, c);
    }

    fn blend_pixel(&mut self, x: usize, y: usize, c: Color) {
        if c.a == 0 || !self.clip.contains(x, y) {
            return;
        }
        proof { lemma_usize_as_i64(x); lemma_usize_as_i64(y); }
        let d = self.at(x, y);
        self.set_at(x, y, c.over_straight(d));
    }

    fn fill_row(&mut self, x: usize, y: usize, len: usize, c: Color) {
        if c.a == 0 || (y as i32) < self.clip.y0 || y as i32 >= self.clip.y1 {
            return;
        }
        let x0 = max_i32(x as i32, self.clip.x0);
        let x1 = min_i32((x + len) as i32, self.clip.x1);
        if x1 <= x0 {
            return;
        }
        let ghost start = *self;
        let mut px = x0;
        while px < x1
            invariant
                self.inv(),
                self.clip == start.clip,
                self.width == start.width, self.height == start.height,
                0 <= y < self.height,
                start.clip.y0 <= y < start.clip.y1,
                c.a != 0,
                x0 == max_i32_spec(x as int, start.clip.x0 as int),
                x1 == min_i32_spec(x + len, start.clip.x1 as int),
                0 <= start.clip.x0, start.clip.x1 <= self.width,
                0 <= x0, x1 <= self.width,
                x0 <= px <= x1,
                forall|qx: int, qy: int| #[trigger] self.pixel(qx, qy) == if qy == y && x0 <= qx < px {
                    if c.a == 255 { c } else { c.over_straight_spec(start.pixel(qx, qy)) }
                } else {
                    start.pixel(qx, qy)
                },
            decreases x1 - px,
        {
            if c.a == 255 {
                self.set_at(px as usize, y, c);
            } else {
                let d = self.at(px as usize, y);
                self.set_at(px as usize, y, c.over_straight(d));
            }
            px += 1;
        }
    }

    fn read_pixel(&self, x: usize, y: usize) -> (c: Color) {
        if x >= self.width || y >= self.height {
            return Color::transparent();
        }
        self.at(x, y)
    }
}

/// A `usize` that fits an `i64` keeps its value; a larger one turns negative.
pub(crate) proof fn lemma_usize_as_i64(x: usize)
    ensures
        x <= i64::MAX ==> (x as i64) as int == x as int,
        x > i64::MAX ==> (x as i64) < 0,
{
    let y = x as u64;
    assert(y > 0x7fff_ffff_ffff_ffffu64 ==> (y as i64) < 0) by (bit_vector);
    assert((x as i64) == (y as i64));
}

} // verus!
