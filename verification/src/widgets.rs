use vstd::prelude::*;
use crate::gfx::canvas::{Canvas, same_frame};
use crate::gfx::color::Color;
use crate::gfx::coverage::COORD;
use crate::gfx::rect::Rect;
use crate::gfx::shapes::tdiv;
use crate::gfx::text::{Font, char_px, draw_char, draw_text, measure, measure_spec, pen_in_reach, text_px};

verus! {

/// Faintest alpha that is still drawn; anything below it is skipped.
pub const MIN_EMBOSS_ALPHA: u8 = 4;

/// Opacity of the white under-stroke, out of 255, relative to the ink's.
pub const EMBOSS_LIGHT: u32 = 70;

/// The white one pixel below embossed text, at `alpha`.
pub open spec fn emboss_light(alpha: u8) -> Color {
    Color { a: (alpha as int * EMBOSS_LIGHT as int / 255) as u8, ..Color::white_spec() }
}

/// The ink of embossed text, at `alpha`.
pub open spec fn emboss_ink(alpha: u8) -> Color {
    Color { a: alpha, ..Color::ink_spec() }
}

/// What `glyph_embossed` does to one pixel: a white copy one pixel lower,
/// then the ink on top; nothing when `alpha` is too faint.
pub open spec fn embossed_px<C: Canvas>(old: Color, px: int, py: int, clip: Rect, mode: int, font: &Font, c: char,
    x: int, baseline: int, alpha: u8) -> Color {
    if alpha < MIN_EMBOSS_ALPHA {
        old
    } else {
        char_px::<C>(
            char_px::<C>(old, px, py, clip, mode, font, c, x, baseline + 1, emboss_light(alpha)),
            px, py, clip, mode, font, c, x, baseline, emboss_ink(alpha))
    }
}

/// What `text_embossed` does to one pixel when the run starts at pen `x`.
pub open spec fn text_embossed_px<C: Canvas>(old: Color, px: int, py: int, clip: Rect, mode: int, font: &Font, s: Seq<char>,
    x: int, baseline: int, alpha: u8) -> Color {
    if alpha < MIN_EMBOSS_ALPHA {
        old
    } else {
        text_px::<C>(
            text_px::<C>(old, px, py, clip, mode, font, s, x, baseline + 1, emboss_light(alpha)),
            px, py, clip, mode, font, s, x, baseline, emboss_ink(alpha))
    }
}

/// Where a run of width `w` starts when it is centred on `center_x`.
pub open spec fn centred_start(center_x: int, w: int) -> int {
    center_x - tdiv(w, 2)
}

/// Draws `c` in ink with a faint white copy one pixel below it, so it reads
/// as pressed into the glass.
pub fn glyph_embossed<C: Canvas>(fb: &mut C, font: &Font, c: char, x: i32, baseline: i32, alpha: u8)
    requires
        old(fb).inv(),
        font.wf(),
        -COORD <= x <= COORD,
        -COORD <= baseline < COORD,
    ensures
        final(fb).inv(),
        same_frame(*old(fb), *final(fb)),
        forall|px: int, py: int| #[trigger] final(fb).pixel(px, py)
            == embossed_px::<C>(old(fb).pixel(px, py), px, py, old(fb).clip_spec(), old(fb).mode(), font, c, x as int, baseline as int, alpha),
{
    if alpha < MIN_EMBOSS_ALPHA {
        return;
    }
    let ghost start = *fb;
    assert((alpha as u32) * EMBOSS_LIGHT / 255 <= 255) by (nonlinear_arith)
        requires alpha < 256;
    let light = Color::white().with_alpha((alpha as u32 * EMBOSS_LIGHT / 255) as u8);
    draw_char(fb, font, c, x, baseline + 1, light);
    let ghost mid = *fb;
    draw_char(fb, font, c, x, baseline, Color::ink().with_alpha(alpha));
    assert forall|px: int, py: int| #[trigger] fb.pixel(px, py)
        == embossed_px::<C>(start.pixel(px, py), px, py, start.clip_spec(), start.mode(), font, c, x as int, baseline as int, alpha) by {
        assert(mid.pixel(px, py) == char_px::<C>(start.pixel(px, py), px, py, start.clip_spec(), start.mode(), font, c, x as int,
            baseline + 1, light));
    }
}

/// Draws `s` embossed and centred on `center_x`.
pub fn text_embossed<C: Canvas>(fb: &mut C, font: &'static Font, s: &str, center_x: i32, baseline: i32, alpha: u8)
    requires
        old(fb).inv(),
        font.wf(),
        -COORD <= center_x <= COORD,
        -COORD <= baseline < COORD,
        alpha >= MIN_EMBOSS_ALPHA ==> pen_in_reach(font, s@, centred_start(center_x as int, measure_spec(font, s@))),
    ensures
        final(fb).inv(),
        same_frame(*old(fb), *final(fb)),
        forall|px: int, py: int| #[trigger] final(fb).pixel(px, py)
            == text_embossed_px::<C>(old(fb).pixel(px, py), px, py, old(fb).clip_spec(), old(fb).mode(), font, s@,
                centred_start(center_x as int, measure_spec(font, s@)), baseline as int, alpha),
{
    if alpha < MIN_EMBOSS_ALPHA {
        return;
    }
    let ghost start = *fb;
    proof { crate::gfx::text::lemma_reach_fits(font, s@, centred_start(center_x as int, measure_spec(font, s@))); }
    let w = measure(font, s);
    proof {
        assert(s@.take(s@.len() as int) =~= s@);
        assert(-2 * COORD <= measure_spec(font, s@.take(s@.len() as int)) <= 2 * COORD);
    }
    let x = center_x - w / 2;
    assert((alpha as u32) * EMBOSS_LIGHT / 255 <= 255) by (nonlinear_arith)
        requires alpha < 256;
    let light = Color::white().with_alpha((alpha as u32 * EMBOSS_LIGHT / 255) as u8);
    draw_text(fb, font, s, x, baseline + 1, light);
    let ghost mid = *fb;
    draw_text(fb, font, s, x, baseline, Color::ink().with_alpha(alpha));
    assert forall|px: int, py: int| #[trigger] fb.pixel(px, py)
        == text_embossed_px::<C>(start.pixel(px, py), px, py, start.clip_spec(), start.mode(), font, s@, x as int, baseline as int, alpha) by {
        assert(mid.pixel(px, py) == text_px::<C>(start.pixel(px, py), px, py, start.clip_spec(), start.mode(), font, s@, x as int,
            baseline + 1, light));
    }
}

/// Digit `d` (0 to 9) as an ASCII byte.
pub open spec fn digit(d: int) -> u8 {
    (48 + d) as u8
}

/// The eight bytes of `hh:mm:ss` for a number of seconds into the day; the
/// hour wraps at 24.
pub open spec fn clock_text(day_seconds: u32) -> Seq<u8> {
    let h = (day_seconds as int / 3600) % 24;
    let m = (day_seconds as int / 60) % 60;
    let s = day_seconds as int % 60;
    seq![digit(h / 10), digit(h % 10), 58u8, digit(m / 10), digit(m % 10), 58u8, digit(s / 10), digit(s % 10)]
}

/// How far `font` moves the pen for `c`, or `fallback` where it has no glyph.
pub open spec fn advance_or(font: &Font, c: char, fallback: int) -> int {
    match font.glyph_spec(c) {
        Some(g) => g.advance as int,
        None => fallback,
    }
}

/// The advance of a colon in `font`, or 8 without one.
pub open spec fn colon_advance(font: &Font) -> int {
    advance_or(font, ':', 8)
}

/// A clock face of fixed-width digits where each digit that changes rolls
/// over: the old digit slides up and out while the new one comes in.
pub struct RollingClock {
    font: &'static Font,
    show_seconds: bool,
    chars: [u8; 8],
    prev: [u8; 8],
}

impl RollingClock {
    /// The text on the face; all zero bytes until the first `set`.
    pub closed spec fn text(&self) -> Seq<u8> {
        self.chars@
    }

    /// What each position showed before it last changed.
    pub closed spec fn previous(&self) -> Seq<u8> {
        self.prev@
    }

    pub closed spec fn seconds_shown(&self) -> bool {
        self.show_seconds
    }

    pub closed spec fn face(&self) -> &'static Font {
        self.font
    }

    /// How many of the eight positions are shown.
    pub open spec fn len_spec(&self) -> int {
        if self.seconds_shown() { 8 } else { 5 }
    }

    pub fn new(font: &'static Font, show_seconds: bool) -> (c: RollingClock)
        ensures
            c.face() == font,
            c.seconds_shown() == show_seconds,
            c.text() == seq![0u8; 8],
            c.previous() == seq![0u8; 8],
    {
        let c = RollingClock { font, show_seconds, chars: [0u8; 8], prev: [0u8; 8] };
        assert(c.chars@ =~= seq![0u8; 8]);
        c
    }

    pub fn len(&self) -> (n: usize)
        ensures n == self.len_spec(),
    {
        if self.show_seconds { 8 } else { 5 }
    }

    /// The byte shown at position `i`.
    pub fn char_at(&self, i: usize) -> (b: u8)
        requires i < 8,
        ensures b == self.text()[i as int],
    {
        self.chars[i]
    }

    /// The byte position `i` showed before its last change.
    pub fn prev_at(&self, i: usize) -> (b: u8)
        requires i < 8,
        ensures b == self.previous()[i as int],
    {
        self.prev[i]
    }

    pub fn font(&self) -> (f: &'static Font)
        ensures f == self.face(),
    {
        self.font
    }

    /// Shows the time `day_seconds` into the day. The first call just shows
    /// it; after that each shown position whose byte changes remembers the
    /// old byte and is reported in the result, so its roll can start.
    pub fn set(&mut self, day_seconds: u32) -> (restarted: [bool; 8])
        ensures
            final(self).text() == clock_text(day_seconds),
            final(self).face() == old(self).face(),
            final(self).seconds_shown() == old(self).seconds_shown(),
            old(self).text()[0] == 0 ==> final(self).previous() == clock_text(day_seconds),
            forall|i: int| 0 <= i < 8 ==> (#[trigger] restarted@[i] <==>
                (old(self).text()[0] != 0 && i < old(self).len_spec() && clock_text(day_seconds)[i] != old(self).text()[i])),
            old(self).text()[0] != 0 ==> forall|i: int| 0 <= i < 8 ==> #[trigger] final(self).previous()[i]
                == if restarted@[i] { old(self).text()[i] } else { old(self).previous()[i] },
    {
        let h = (day_seconds / 3600) % 24;
        let m = (day_seconds / 60) % 60;
        let s = day_seconds % 60;
        let new: [u8; 8] = [
            48 + (h / 10) as u8, 48 + (h % 10) as u8, 58,
            48 + (m / 10) as u8, 48 + (m % 10) as u8, 58,
            48 + (s / 10) as u8, 48 + (s % 10) as u8,
        ];
        proof { assert(new@ =~= clock_text(day_seconds)); }
        let mut restarted = [false; 8];
        assert(restarted@ =~= seq![false; 8]);
        if self.chars[0] == 0 {
            self.chars = new;
            self.prev = new;
            return restarted;
        }
        let n = self.len();
        let ghost pre = *self;
        let mut i: usize = 0;
        while i < n
            invariant
                n == pre.len_spec(),
                i <= n,
                new@ == clock_text(day_seconds),
                self.chars == pre.chars,
                self.font == pre.font,
                self.show_seconds == pre.show_seconds,
                pre.chars@[0] != 0,
                forall|j: int| 0 <= j < 8 ==> (#[trigger] restarted@[j] <==>
                    (j < i && new@[j] != pre.chars@[j])),
                forall|j: int| 0 <= j < 8 ==> #[trigger] self.prev@[j]
                    == if restarted@[j] { pre.chars@[j] } else { pre.prev@[j] },
            decreases n - i,
        {
            if new[i] != self.chars[i] {
                self.prev[i] = self.chars[i];
                restarted[i] = true;
            }
            i += 1;
        }
        self.chars = new;
        restarted
    }

    /// The width of the whole face: a fixed cell per digit, a colon's own
    /// advance per colon.
    pub open spec fn width_spec(&self) -> int {
        if self.seconds_shown() {
            6 * self.face().digit_advance + 2 * colon_advance(self.face())
        } else {
            4 * self.face().digit_advance + colon_advance(self.face())
        }
    }

    /// The height of a digit's glyph, or 20 without one.
    pub open spec fn digit_height_spec(&self) -> int {
        match self.face().glyph_spec('0') {
            Some(g) => g.h as int,
            None => 20,
        }
    }

    pub fn width(&self) -> (w: i32)
        ensures w == self.width_spec(),
    {
        let cell = self.font.digit_advance as i32;
        let colon_adv = match self.font.glyph(':') {
            Some(g) => g.advance as i32,
            None => 8,
        };
        let colons: i32 = if self.show_seconds { 2 } else { 1 };
        let digits: i32 = self.len() as i32 - colons;
        assert(digits == 4 || digits == 6);
        digits * cell + colons * colon_adv
    }

    pub fn digit_height(&self) -> (h: i32)
        ensures h == self.digit_height_spec(),
    {
        match self.font.glyph('0') {
            Some(g) => g.h as i32,
            None => 20,
        }
    }

    /// Where `c` starts so that it sits in the middle of the digit cell whose
    /// left edge is `pen`.
    pub fn centered(&self, pen: i32, c: char) -> (x: i32)
        requires -COORD <= pen <= COORD,
        ensures
            x == pen + tdiv(self.face().digit_advance - advance_or(self.face(), c, self.face().digit_advance as int), 2),
    {
        let cell = self.font.digit_advance as i32;
        let adv = match self.font.glyph(c) {
            Some(g) => g.advance as i32,
            None => cell,
        };
        pen + (cell - adv) / 2
    }
}

} // verus!
