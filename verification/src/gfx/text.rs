use vstd::prelude::*;
use vstd::string::*;
use super::canvas::{Canvas, same_frame};
use super::color::Color;
use super::coverage::COORD;

verus! {

/// Where a glyph's coverage bitmap sits and how it lines up with the pen.
#[derive(Copy, Clone, PartialEq, Eq, Debug, Structural)]
pub struct GlyphMeta {
    pub xmin: i16,
    pub ymin: i16,
    pub w: u16,
    pub h: u16,
    pub advance: i16,
    pub offset: u32,
}

/// A bitmap font: one glyph per character from `first_char` on, each an
/// 8-bit coverage bitmap inside `bitmap`.
pub struct Font {
    pub first_char: u32,
    pub glyphs: &'static [GlyphMeta],
    pub bitmap: &'static [u8],
    pub ascent: i16,
    pub descent: i16,
    pub line_height: i16,
    pub digit_advance: i16,
}

impl Font {
    /// Every glyph's bitmap lies inside the font's bitmap data.
    pub open spec fn wf(&self) -> bool {
        forall|i: int| 0 <= i < self.glyphs@.len() ==>
            (#[trigger] self.glyphs@[i]).offset + self.glyphs@[i].w * self.glyphs@[i].h <= self.bitmap@.len()
    }

    /// The glyph for `c`, if the font has one.
    pub open spec fn glyph_spec(&self, c: char) -> Option<GlyphMeta> {
        let i = c as int - self.first_char as int;
        if 0 <= i < self.glyphs@.len() { Some(self.glyphs@[i]) } else { None }
    }

    pub fn glyph(&self, c: char) -> (g: Option<&GlyphMeta>)
        ensures
            match g {
                Some(m) => self.glyph_spec(c) == Some(*m),
                None => self.glyph_spec(c) is None,
            },
    {
        let code = c as u32;
        if code < self.first_char {
            return None;
        }
        let i = (code - self.first_char) as usize;
        if i < self.glyphs.len() {
            Some(&self.glyphs[i])
        } else {
            None
        }
    }
}

/// How far the pen moves for `c`: its glyph's advance, or nothing.
pub open spec fn advance_of(font: &Font, c: char) -> int {
    match font.glyph_spec(c) {
        Some(g) => g.advance as int,
        None => 0,
    }
}

/// The width of a run of characters: the sum of their advances.
pub open spec fn measure_spec(font: &Font, s: Seq<char>) -> int
    decreases s.len(),
{
    if s.len() == 0 { 0 } else { measure_spec(font, s.drop_last()) + advance_of(font, s.last()) }
}

/// The running width stays an `i32` at every character of `s`.
pub open spec fn measure_fits(font: &Font, s: Seq<char>) -> bool {
    forall|i: int| 0 <= i <= s.len() ==> i32::MIN <= #[trigger] measure_spec(font, s.take(i)) <= i32::MAX
}

/// Widths add up: a run set after another is as wide as both together.
pub proof fn lemma_measure_concat(font: &Font, s: Seq<char>, t: Seq<char>)
    ensures measure_spec(font, s + t) == measure_spec(font, s) + measure_spec(font, t),
    decreases t.len(),
{
    if t.len() == 0 {
        assert(s + t =~= s);
    } else {
        lemma_measure_concat(font, s, t.drop_last());
        assert((s + t).drop_last() =~= s + t.drop_last());
        assert((s + t).last() == t.last());
    }
}

/// The width of `s` set in `font`.
pub fn measure(font: &Font, s: &str) -> (w: i32)
    requires measure_fits(font, s@),
    ensures w == measure_spec(font, s@),
{
    let n = s.unicode_len();
    let mut total: i32 = 0;
    let mut i: usize = 0;
    while i < n
        invariant
            n == s@.len(),
            measure_fits(font, s@),
            i <= n,
            total == measure_spec(font, s@.take(i as int)),
        decreases n - i,
    {
        let c = s.get_char(i);
        proof {
            assert(s@.take(i + 1).drop_last() =~= s@.take(i as int));
            assert(i32::MIN <= measure_spec(font, s@.take(i + 1)) <= i32::MAX);
        }
        match font.glyph(c) {
            Some(g) => { total = total + g.advance as i32; }
            None => {}
        }
        i += 1;
    }
    proof { assert(s@.take(n as int) =~= s@); }
    total
}

/// The coverage of the glyph `g` at pixel `(px, py)` when its pen sits at
/// `x` on the baseline `baseline`, or 0 outside the glyph's box.
pub open spec fn glyph_cov(font: &Font, g: GlyphMeta, px: int, py: int, x: int, baseline: int) -> u8 {
    let x0 = x + g.xmin;
    let y0 = baseline - g.ymin - g.h;
    let col = px - x0;
    let row = py - y0;
    if 0 <= col < g.w && 0 <= row < g.h {
        font.bitmap@[g.offset + row * g.w + col]
    } else {
        0
    }
}

/// What drawing character `c` does to the pixel `(px, py)`: where its glyph
/// has coverage the colour is blended in at that share of its alpha.
pub open spec fn char_px<C: Canvas>(old: Color, px: int, py: int, clip: super::rect::Rect, mode: int, font: &Font, c: char,
    x: int, baseline: int, color: Color) -> Color {
    match font.glyph_spec(c) {
        Some(g) => {
            let cov = glyph_cov(font, g, px, py, x, baseline);
            if g.w > 0 && g.h > 0 && color.a > 0 && cov != 0 && px >= 0 && py >= 0 && clip.has(px, py) {
                C::blend_spec(mode, Color { a: (color.a as int * cov as int / 255) as u8, ..color }, old)
            } else {
                old
            }
        },
        None => old,
    }
}

/// Draws one character with its pen at `x` on `baseline_y`; returns how far
/// the pen moves.
pub fn draw_char<C: Canvas>(fb: &mut C, font: &Font, c: char, x: i32, baseline_y: i32, color: Color) -> (adv: i32)
    requires
        old(fb).inv(),
        font.wf(),
        -COORD <= x <= COORD,
        -COORD <= baseline_y <= COORD,
    ensures
        final(fb).inv(),
        same_frame(*old(fb), *final(fb)),
        adv == advance_of(font, c),
        forall|px: int, py: int| #[trigger] final(fb).pixel(px, py)
            == char_px::<C>(old(fb).pixel(px, py), px, py, old(fb).clip_spec(), old(fb).mode(), font, c, x as int, baseline_y as int, color),
{
    let g = match font.glyph(c) {
        Some(g) => g,
        None => { return 0; }
    };
    if g.w > 0 && g.h > 0 && color.a > 0 {
        let ghost gi = (c as int - font.first_char as int);
        proof { assert(font.glyphs@[gi] == *g); }
        let x0 = x + g.xmin as i32;
        let y0 = baseline_y - g.ymin as i32 - g.h as i32;
        let ghost start = *fb;
        let blen = font.bitmap.len();
        let mut row: i32 = 0;
        while row < g.h as i32
            invariant
                fb.inv(),
                same_frame(start, *fb),
                font.wf(),
                font.glyph_spec(c) == Some(*g),
                g.w > 0, g.h > 0, color.a > 0,
                g.offset + g.w * g.h <= font.bitmap@.len(),
                blen == font.bitmap@.len(),
                x0 == x + g.xmin, y0 == baseline_y - g.ymin - g.h,
                -COORD <= x <= COORD, -COORD <= baseline_y <= COORD,
                0 <= row <= g.h,
                forall|qx: int, qy: int| #[trigger] fb.pixel(qx, qy) == if qy < y0 + row {
                    char_px::<C>(start.pixel(qx, qy), qx, qy, start.clip_spec(), start.mode(), font, c, x as int, baseline_y as int, color)
                } else {
                    start.pixel(qx, qy)
                },
            decreases g.h - row,
        {
            let mut col: i32 = 0;
            while col < g.w as i32
                invariant
                    fb.inv(),
                    same_frame(start, *fb),
                    font.wf(),
                    font.glyph_spec(c) == Some(*g),
                    g.w > 0, g.h > 0, color.a > 0,
                    g.offset + g.w * g.h <= font.bitmap@.len(),
                    blen == font.bitmap@.len(),
                    x0 == x + g.xmin, y0 == baseline_y - g.ymin - g.h,
                    -COORD <= x <= COORD, -COORD <= baseline_y <= COORD,
                    0 <= row < g.h,
                    0 <= col <= g.w,
                    forall|qx: int, qy: int| #[trigger] fb.pixel(qx, qy) == if qy < y0 + row || (qy == y0 + row && qx < x0 + col) {
                        char_px::<C>(start.pixel(qx, qy), qx, qy, start.clip_spec(), start.mode(), font, c, x as int, baseline_y as int, color)
                    } else {
                        start.pixel(qx, qy)
                    },
                decreases g.w - col,
            {
                proof {
                    assert(row * g.w + col < g.w * g.h) by (nonlinear_arith)
                        requires 0 <= row < g.h, 0 <= col < g.w;
                    assert(0 <= row * g.w) by (nonlinear_arith) requires 0 <= row, 0 <= g.w;
                }
                let i = g.offset as usize + (row as usize) * (g.w as usize) + col as usize;
                let cov = font.bitmap[i];
                let px = x0 + col;
                let py = y0 + row;
                if cov != 0 && px >= 0 && py >= 0 {
                    assert((color.a as u32) * (cov as u32) <= 255 * 255) by (nonlinear_arith)
                        requires color.a < 256, cov < 256;
                    assert((color.a as u32) * (cov as u32) / 255 <= 255) by (nonlinear_arith)
                        requires color.a < 256, cov < 256;
                    let a = ((color.a as u32 * cov as u32) / 255) as u8;
                    fb.blend_pixel(px as usize, py as usize, color.with_alpha(a));
                }
                col += 1;
            }
            row += 1;
        }
    }
    g.advance as i32
}

/// Where a glyph lands on the canvas. With the pen at `x` on the baseline
/// `baseline`, the glyph's bitmap row `row` (0 at the top) is painted on
/// pixel row `baseline - ymin - h + row`, so its bottom row sits on
/// `baseline - ymin - 1` and a glyph with a negative `ymin` hangs below the
/// baseline; its bitmap column `col` is painted on pixel column
/// `x + xmin + col`. Such a pixel takes the colour at the share of its alpha
/// that the bitmap byte gives, where the pixel is on the canvas and the byte
/// is not 0; every pixel outside those rows and columns stays as it was.
pub proof fn lemma_glyph_placement<C: Canvas>(old: Color, clip: super::rect::Rect, mode: int, font: &Font, c: char,
    x: int, baseline: int, color: Color, row: int, col: int)
    requires
        font.wf(),
        font.glyph_spec(c) is Some,
    ensures
        ({
            let g = font.glyph_spec(c)->Some_0;
            let px = x + g.xmin + col;
            let py = baseline - g.ymin - g.h + row;
            let out = char_px::<C>(old, px, py, clip, mode, font, c, x, baseline, color);
            &&& !(0 <= row < g.h && 0 <= col < g.w) ==> out == old
            &&& (0 <= row < g.h && 0 <= col < g.w) ==> ({
                let cov = font.bitmap@[g.offset + row * g.w + col];
                out == if cov != 0 && color.a > 0 && px >= 0 && py >= 0 && clip.has(px, py) {
                    C::blend_spec(mode, Color { a: (color.a as int * cov as int / 255) as u8, ..color }, old)
                } else {
                    old
                }
            })
        }),
{
}

/// Whether the pen stays within drawing reach before and after every
/// character of `s` when it starts at `x`.
pub open spec fn pen_in_reach(font: &Font, s: Seq<char>, x: int) -> bool {
    forall|i: int| 0 <= i <= s.len() ==> -COORD <= x + #[trigger] measure_spec(font, s.take(i)) <= COORD
}

/// What drawing the run `s` from pen position `x` does to the pixel
/// `(px, py)`: each character in turn, its pen advanced by those before it.
pub open spec fn text_px<C: Canvas>(old: Color, px: int, py: int, clip: super::rect::Rect, mode: int, font: &Font,
    s: Seq<char>, x: int, baseline: int, color: Color) -> Color
    decreases s.len(),
{
    if s.len() == 0 {
        old
    } else {
        let before = s.drop_last();
        char_px::<C>(text_px::<C>(old, px, py, clip, mode, font, before, x, baseline, color), px, py, clip, mode, font,
            s.last(), x + measure_spec(font, before), baseline, color)
    }
}

/// A run whose pen stays within reach from some start has a width that
/// stays an `i32` all along.
pub proof fn lemma_reach_fits(font: &Font, s: Seq<char>, x: int)
    requires pen_in_reach(font, s, x),
    ensures
        measure_fits(font, s),
        forall|i: int| 0 <= i <= s.len() ==> -2 * COORD <= #[trigger] measure_spec(font, s.take(i)) <= 2 * COORD,
{
    assert(s.take(0) =~= Seq::<char>::empty());
    assert(measure_spec(font, s.take(0)) == 0);
    assert(-COORD <= x + measure_spec(font, s.take(0)) <= COORD);
}

/// Draws `s` with its pen starting at `x` on `baseline_y`; returns the
/// width it took.
pub fn draw_text<C: Canvas>(fb: &mut C, font: &Font, s: &str, x: i32, baseline_y: i32, color: Color) -> (w: i32)
    requires
        old(fb).inv(),
        font.wf(),
        pen_in_reach(font, s@, x as int),
        -COORD <= baseline_y <= COORD,
    ensures
        final(fb).inv(),
        same_frame(*old(fb), *final(fb)),
        w == measure_spec(font, s@),
        forall|px: int, py: int| #[trigger] final(fb).pixel(px, py)
            == text_px::<C>(old(fb).pixel(px, py), px, py, old(fb).clip_spec(), old(fb).mode(), font, s@, x as int, baseline_y as int, color),
{
    let ghost start = *fb;
    let n = s.unicode_len();
    let mut pen: i32 = x;
    let mut i: usize = 0;
    proof { assert(s@.take(0) =~= Seq::<char>::empty()); assert(measure_spec(font, s@.take(0)) == 0); }
    while i < n
        invariant
            n == s@.len(),
            i <= n,
            fb.inv(),
            same_frame(start, *fb),
            font.wf(),
            pen_in_reach(font, s@, x as int),
            -COORD <= baseline_y <= COORD,
            pen == x + measure_spec(font, s@.take(i as int)),
            forall|px: int, py: int| #[trigger] fb.pixel(px, py)
                == text_px::<C>(start.pixel(px, py), px, py, start.clip_spec(), start.mode(), font, s@.take(i as int), x as int, baseline_y as int, color),
        decreases n - i,
    {
        let c = s.get_char(i);
        proof {
            assert(s@.take(i + 1).drop_last() =~= s@.take(i as int));
            assert(s@.take(i + 1).last() == c);
            assert(-COORD <= x + measure_spec(font, s@.take(i + 1)) <= COORD);
        }
        let adv = draw_char(fb, font, c, pen, baseline_y, color);
        pen = pen + adv;
        i += 1;
    }
    proof { assert(s@.take(n as int) =~= s@); }
    pen - x
}

} // verus!
