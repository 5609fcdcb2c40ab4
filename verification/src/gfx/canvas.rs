use vstd::prelude::*;
use super::color::Color;

use super::rect::Rect;

verus! {

/// The largest side a canvas can have: every pixel coordinate fits an `i32`.
pub const CANVAS_MAX: i32 = 0x7fff_ffff;

/// Something pixels can be drawn into: a window's surface or the screen.
///
/// Its contents are modelled as a colour for every pixel position; writes
/// land only inside the clip rectangle, which lies inside the canvas.
pub trait Canvas: Sized {
    /// The canvas's own bookkeeping holds.
    spec fn inv(&self) -> bool;

    spec fn width_spec(&self) -> int;

    spec fn height_spec(&self) -> int;

    /// Where writes may land.
    spec fn clip_spec(&self) -> Rect;

    /// The colour at pixel `(x, y)`.
    spec fn pixel(&self, x: int, y: int) -> Color;

    /// How the canvas stores colours, where it has more than one way.
    spec fn mode(&self) -> int;

    /// What a pixel reads back as after `put_pixel` wrote `c` into a canvas
    /// storing colours in `mode`.
    spec fn store_spec(mode: int, c: Color) -> Color;

    /// What `blend_pixel` leaves behind when it composites `src` over `dst`
    /// in a canvas storing colours in `mode`.
    spec fn blend_spec(mode: int, src: Color, dst: Color) -> Color;

    /// The clip lies inside the canvas, whose sides are at most `CANVAS_MAX`.
    proof fn lemma_inv(&self)
        requires self.inv(),
        ensures
            0 <= self.width_spec() <= CANVAS_MAX,
            0 <= self.height_spec() <= CANVAS_MAX,
            0 <= self.clip_spec().x0,
            0 <= self.clip_spec().y0,
            self.clip_spec().x1 <= self.width_spec(),
            self.clip_spec().y1 <= self.height_spec(),
    ;

    fn width(&self) -> (r: usize)
        requires self.inv(),
        ensures r == self.width_spec(),
    ;

    fn height(&self) -> (r: usize)
        requires self.inv(),
        ensures r == self.height_spec(),
    ;

    fn clip(&self) -> (r: Rect)
        requires self.inv(),
        ensures r == self.clip_spec(),
    ;

    /// Sets the pixel `(x, y)` to `c` if the clip holds it.
    fn put_pixel(&mut self, x: usize, y: usize, c: Color)
        requires old(self).inv(),
        ensures
            final(self).inv(),
            final(self).width_spec() == old(self).width_spec(),
            final(self).height_spec() == old(self).height_spec(),
            final(self).clip_spec() == old(self).clip_spec(),
            final(self).mode() == old(self).mode(),
            forall|px: int, py: int| #[trigger] final(self).pixel(px, py) == if px == x && py == y
                && old(self).clip_spec().has(px, py) { Self::store_spec(old(self).mode(), c) } else { old(self).pixel(px, py) },
    ;

    /// Composites `c` over the pixel `(x, y)` if the clip holds it.
    fn blend_pixel(&mut self, x: usize, y: usize, c: Color)
        requires old(self).inv(),
        ensures
            final(self).inv(),
            final(self).width_spec() == old(self).width_spec(),
            final(self).height_spec() == old(self).height_spec(),
            final(self).clip_spec() == old(self).clip_spec(),
            final(self).mode() == old(self).mode(),
            forall|px: int, py: int| #[trigger] final(self).pixel(px, py) == if px == x && py == y
                && old(self).clip_spec().has(px, py) {
                Self::blend_spec(old(self).mode(), c, old(self).pixel(px, py))
            } else {
                old(self).pixel(px, py)
            },
    ;

    fn read_pixel(&self, x: usize, y: usize) -> (c: Color)
        requires self.inv(),
        ensures c == self.pixel(x as int, y as int),
    ;

    /// The clip's corners: `(x0, y0, x1, y1)`.
    fn bounds(&self) -> (r: (i32, i32, i32, i32))
        requires self.inv(),
        ensures
            r == (self.clip_spec().x0, self.clip_spec().y0, self.clip_spec().x1, self.clip_spec().y1),
    {
        let c = self.clip();
        (c.x0, c.y0, c.x1, c.y1)
    }

    /// Writes an opaque colour, composites any other.
    fn paint(&mut self, x: usize, y: usize, c: Color)
        requires old(self).inv(),
        ensures
            final(self).inv(),
            final(self).width_spec() == old(self).width_spec(),
            final(self).height_spec() == old(self).height_spec(),
            final(self).clip_spec() == old(self).clip_spec(),
            final(self).mode() == old(self).mode(),
            forall|px: int, py: int| #[trigger] final(self).pixel(px, py) == if px == x && py == y
                && old(self).clip_spec().has(px, py) {
                (if c.a == 255 { Self::store_spec(old(self).mode(), c) } else { Self::blend_spec(old(self).mode(), c, old(self).pixel(px, py)) })
            } else {
                old(self).pixel(px, py)
            },
    {
        if c.a == 255 {
            self.put_pixel(x, y, c);
        } else {
            self.blend_pixel(x, y, c);
        }
    }

    /// Paints `len` pixels of row `y` from column `x` rightward with `c`.
    fn fill_row(&mut self, x: usize, y: usize, len: usize, c: Color)
        requires
            old(self).inv(),
            x + len <= CANVAS_MAX,
            y <= CANVAS_MAX,
        ensures
            final(self).inv(),
            final(self).width_spec() == old(self).width_spec(),
            final(self).height_spec() == old(self).height_spec(),
            final(self).clip_spec() == old(self).clip_spec(),
            final(self).mode() == old(self).mode(),
            forall|px: int, py: int| #[trigger] final(self).pixel(px, py) == if py == y && x <= px < x + len
                && old(self).clip_spec().has(px, py) {
                (if c.a == 255 { Self::store_spec(old(self).mode(), c) } else { Self::blend_spec(old(self).mode(), c, old(self).pixel(px, py)) })
            } else {
                old(self).pixel(px, py)
            },
    {
        let ghost start = *self;
        let mut i: usize = 0;
        while i < len
            invariant
                self.inv(),
                i <= len,
                x + len <= CANVAS_MAX,
                y <= CANVAS_MAX,
                self.width_spec() == start.width_spec(),
                self.height_spec() == start.height_spec(),
                self.clip_spec() == start.clip_spec(),
                self.mode() == start.mode(),
                forall|px: int, py: int| #[trigger] self.pixel(px, py) == if py == y && x <= px < x + i
                    && start.clip_spec().has(px, py) {
                    (if c.a == 255 { Self::store_spec(start.mode(), c) } else { Self::blend_spec(start.mode(), c, start.pixel(px, py)) })
                } else {
                    start.pixel(px, py)
                },
            decreases len - i,
        {
            self.paint(x + i, y, c);
            i += 1;
        }
    }

    /// Paints the colours of `src` along row `y` from column `x`, each faded
    /// to `opacity`; fully transparent source pixels are skipped.
    fn blend_row(&mut self, x: usize, y: usize, src: &[Color], opacity: u8)
        requires
            old(self).inv(),
            x + src@.len() <= CANVAS_MAX,
            y <= CANVAS_MAX,
        ensures
            final(self).inv(),
            final(self).width_spec() == old(self).width_spec(),
            final(self).height_spec() == old(self).height_spec(),
            final(self).clip_spec() == old(self).clip_spec(),
            final(self).mode() == old(self).mode(),
            forall|px: int, py: int| #[trigger] final(self).pixel(px, py) == if py == y && x <= px < x + src@.len()
                && old(self).clip_spec().has(px, py) && src@[px - x].a != 0 {
                (if src@[px - x].fade_spec(opacity).a == 255 { Self::store_spec(old(self).mode(), src@[px - x].fade_spec(opacity)) } else { Self::blend_spec(old(self).mode(), src@[px - x].fade_spec(opacity), old(self).pixel(px, py)) })
            } else {
                old(self).pixel(px, py)
            },
    {
        let ghost start = *self;
        let mut i: usize = 0;
        while i < src.len()
            invariant
                self.inv(),
                i <= src@.len(),
                x + src@.len() <= CANVAS_MAX,
                self.width_spec() == start.width_spec(),
                self.height_spec() == start.height_spec(),
                self.clip_spec() == start.clip_spec(),
                self.mode() == start.mode(),
                forall|px: int, py: int| #[trigger] self.pixel(px, py) == if py == y && x <= px < x + i
                    && start.clip_spec().has(px, py) && src@[px - x].a != 0 {
                    (if src@[px - x].fade_spec(opacity).a == 255 { Self::store_spec(start.mode(), src@[px - x].fade_spec(opacity)) } else { Self::blend_spec(start.mode(), src@[px - x].fade_spec(opacity), start.pixel(px, py)) })
                } else {
                    start.pixel(px, py)
                },
            decreases src@.len() - i,
        {
            let c = src[i];
            if c.a != 0 {
                self.paint(x + i, y, c.fade(opacity));
            }
            i += 1;
        }
    }
}

/// Two states of one canvas have the same size and clip.
pub open spec fn same_frame<C: Canvas>(a: C, b: C) -> bool {
    &&& a.width_spec() == b.width_spec()
    &&& a.height_spec() == b.height_spec()
    &&& a.clip_spec() == b.clip_spec()
    &&& a.mode() == b.mode()
}

/// What `paint` leaves behind: an opaque colour replaces, any other
/// composites.
pub open spec fn paint_of<C: Canvas>(mode: int, c: Color, dst: Color) -> Color {
    if c.a == 255 { C::store_spec(mode, c) } else { C::blend_spec(mode, c, dst) }
}

} // verus!
