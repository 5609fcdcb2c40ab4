use vstd::prelude::*;
use crate::gfx::canvas::{Canvas, same_frame};
use crate::gfx::color::Color;
use crate::gfx::coverage::{COORD, rounded_coverage, rounded_coverage_spec};
use crate::gfx::framebuffer::{Framebuffer, stored};
use crate::gfx::rect::{Rect, max_i, max_i32, min_i, min_i32};

verus! {

/// The screen for one frame, plus the blurred wallpaper behind it.
pub struct Frame<'a> {
    target: Framebuffer<'a>,
    blurred: Framebuffer<'a>,
}

/// The corner radius `glass_backdrop` uses: `r`, at least zero and at most
/// half of either side.
pub open spec fn backdrop_radius(w: int, h: int, r: int) -> int {
    min_i(min_i(max_i(r, 0), w / 2), h / 2)
}

/// What laying the blurred wallpaper into a rounded rectangle does to the
/// pixel `(px, py)` of a screen `width` by `height` clipped to `clip`.
pub open spec fn backdrop_px(old: Color, sample: Color, clip: Rect, mode: int, px: int, py: int, width: int, height: int,
    x: int, y: int, w: int, h: int, r: int) -> Color {
    let cov = rounded_coverage_spec(px - x, py - y, w, h, backdrop_radius(w, h, r));
    if w > 0 && h > 0 && max_i(x, 0) <= px < min_i(x + w, width) && max_i(y, 0) <= py < min_i(y + h, height) && cov != 0
        && clip.has(px, py) {
        stored(mode, Color { a: cov, ..sample }.over_spec(old))
    } else {
        old
    }
}

impl<'a> Frame<'a> {
    /// The blurred wallpaper.
    pub closed spec fn backdrop(&self) -> Framebuffer<'a> {
        self.blurred
    }

    /// Pairs the screen being drawn with the blurred wallpaper that glass
    /// reads from.
    pub fn new(target: Framebuffer<'a>, blurred: Framebuffer<'a>) -> (f: Frame<'a>)
        requires
            target.inv(),
            blurred.inv(),
        ensures
            f.inv(),
            f.backdrop() == blurred,
            f.width_spec() == target.width_spec(),
            f.height_spec() == target.height_spec(),
            f.clip_spec() == target.clip_spec(),
            f.mode() == target.mode(),
            forall|x: int, y: int| #[trigger] f.pixel(x, y) == target.pixel(x, y),
    {
        Frame { target, blurred }
    }

    /// Confines every later write to `rect`, intersected with the screen.
    pub fn set_clip(&mut self, rect: Rect)
        requires old(self).inv(),
        ensures
            final(self).inv(),
            final(self).backdrop() == old(self).backdrop(),
            final(self).width_spec() == old(self).width_spec(),
            final(self).height_spec() == old(self).height_spec(),
            final(self).mode() == old(self).mode(),
            final(self).clip_spec() == rect.intersect_spec(
                Rect { x0: 0, y0: 0, x1: old(self).width_spec() as i32, y1: old(self).height_spec() as i32 }),
            forall|x: int, y: int| #[trigger] final(self).pixel(x, y) == old(self).pixel(x, y),
    {
        self.target.set_clip(rect);
    }
}

impl<'a> Frame<'a> {
    /// Lays the blurred wallpaper into a rounded rectangle, antialiased at
    /// the corners. Everything a glass panel needs on top of that (tint, rim
    /// light, border) is drawn after.
    pub fn glass_backdrop(&mut self, x: i32, y: i32, w: i32, h: i32, r: i32)
        requires
            old(self).inv(),
            -COORD <= x <= COORD, -COORD <= y <= COORD,
            w <= COORD, h <= COORD, -COORD <= r <= COORD,
        ensures
            final(self).inv(),
            same_frame(*old(self), *final(self)),
            final(self).backdrop() == old(self).backdrop(),
            forall|px: int, py: int| #[trigger] final(self).pixel(px, py) == backdrop_px(old(self).pixel(px, py),
                old(self).backdrop().pixel(px, py), old(self).clip_spec(), old(self).mode(), px, py, old(self).width_spec(), old(self).height_spec(),
                x as int, y as int, w as int, h as int, r as int),
    {
        if w <= 0 || h <= 0 {
            return;
        }
        let rr = min_i32(min_i32(max_i32(r, 0), w / 2), h / 2);
        let x0 = max_i32(x, 0);
        let y0 = max_i32(y, 0);
        proof { self.target.lemma_inv(); }
        let x1 = min_i32(x + w, self.target.width() as i32);
        let y1 = min_i32(y + h, self.target.height() as i32);
        let ghost start = *self;
        let mut py = y0;
        while py < y1
            invariant
                self.inv(),
                same_frame(start, *self),
                self.blurred == start.blurred,
                -COORD <= x <= COORD, -COORD <= y <= COORD, 0 < w <= COORD, 0 < h <= COORD,
                rr == backdrop_radius(w as int, h as int, r as int),
                x0 == max_i(x as int, 0), y0 == max_i(y as int, 0),
                x1 == min_i(x + w, start.width_spec()), y1 == min_i(y + h, start.height_spec()),
                y0 <= py,
                forall|qx: int, qy: int| #[trigger] self.pixel(qx, qy) == if qy < py {
                    backdrop_px(start.pixel(qx, qy), start.blurred.pixel(qx, qy), start.clip_spec(), start.mode(), qx, qy,
                        start.width_spec(), start.height_spec(), x as int, y as int, w as int, h as int, r as int)
                } else {
                    start.pixel(qx, qy)
                },
            decreases y1 - py,
        {
            let mut px = x0;
            while px < x1
                invariant
                    self.inv(),
                    same_frame(start, *self),
                    self.blurred == start.blurred,
                    -COORD <= x <= COORD, -COORD <= y <= COORD, 0 < w <= COORD, 0 < h <= COORD,
                    rr == backdrop_radius(w as int, h as int, r as int),
                    x0 == max_i(x as int, 0), y0 == max_i(y as int, 0),
                    x1 == min_i(x + w, start.width_spec()), y1 == min_i(y + h, start.height_spec()),
                    y0 <= py < y1,
                    x0 <= px,
                    forall|qx: int, qy: int| #[trigger] self.pixel(qx, qy) == if qy < py || (qy == py && qx < px) {
                        backdrop_px(start.pixel(qx, qy), start.blurred.pixel(qx, qy), start.clip_spec(), start.mode(), qx, qy,
                            start.width_spec(), start.height_spec(), x as int, y as int, w as int, h as int, r as int)
                    } else {
                        start.pixel(qx, qy)
                    },
                decreases x1 - px,
            {
                let cov = rounded_coverage(px - x, py - y, w, h, rr);
                let ghost before = *self;
                if cov != 0 {
                    let sample = self.blurred.read_pixel(px as usize, py as usize);
                    self.target.blend_pixel(px as usize, py as usize, sample.with_alpha(cov));
                }
                proof {
                    assert forall|qx: int, qy: int| #[trigger] self.pixel(qx, qy) == if qy < py || (qy == py && qx < px + 1) {
                        backdrop_px(start.pixel(qx, qy), start.blurred.pixel(qx, qy), start.clip_spec(), start.mode(), qx, qy,
                            start.width_spec(), start.height_spec(), x as int, y as int, w as int, h as int, r as int)
                    } else {
                        start.pixel(qx, qy)
                    } by {
                        assert(before.pixel(qx, qy) == before.target.pixel(qx, qy));
                        assert(self.pixel(qx, qy) == self.target.pixel(qx, qy));
                        if qx == px && qy == py {
                            assert(before.pixel(qx, qy) == start.pixel(qx, qy));
                            assert(before.target.clip_spec() == start.clip_spec());
                        }
                    }
                }
                px += 1;
            }
            py += 1;
        }
    }
}

impl<'a> Canvas for Frame<'a> {
    closed spec fn inv(&self) -> bool {
        &&& self.target.inv()
        &&& self.blurred.inv()
    }

    closed spec fn width_spec(&self) -> int {
        self.target.width_spec()
    }

    closed spec fn height_spec(&self) -> int {
        self.target.height_spec()
    }

    closed spec fn clip_spec(&self) -> Rect {
        self.target.clip_spec()
    }

    closed spec fn pixel(&self, x: int, y: int) -> Color {
        self.target.pixel(x, y)
    }

    closed spec fn mode(&self) -> int {
        self.target.mode()
    }

    /// As the screen's framebuffer stores it.
    open spec fn store_spec(mode: int, c: Color) -> Color {
        stored(mode, c)
    }

    /// As the screen's framebuffer blends.
    open spec fn blend_spec(mode: int, src: Color, dst: Color) -> Color {
        if src.a == 0 { dst } else { stored(mode, src.over_spec(dst)) }
    }

    proof fn lemma_inv(&self) {
        self.target.lemma_inv();
    }

    fn width(&self) -> (r: usize) {
        let w = self.target.width();
        assert(self.width_spec() == self.target.width_spec());
        w
    }

    fn height(&self) -> (r: usize) {
        let h = self.target.height();
        assert(self.height_spec() == self.target.height_spec());
        h
    }

    fn clip(&self) -> (r: Rect) {
        let r = self.target.clip();
        assert(self.clip_spec() == self.target.clip_spec());
        r
    }

    fn put_pixel(&mut self, x: usize, y: usize, c: Color) {
        self.target.put_pixel(x, y, c);
    }

    fn blend_pixel(&mut self, x: usize, y: usize, c: Color) {
        self.target.blend_pixel(x, y, c);
    }

    fn read_pixel(&self, x: usize, y: usize) -> (c: Color) {
        self.target.read_pixel(x, y)
    }
}

} // verus!
