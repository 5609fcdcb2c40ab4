use lumen::apps::clock_painted;
use lumen::gfx::canvas::Canvas;
use lumen::gfx::color::Color;
use lumen::gfx::rect::Rect;
use lumen::gfx::surface::Surface;
use lumen::gfx::text::{draw_char, draw_text, measure, Font, GlyphMeta};
use lumen::widgets::{glyph_embossed, text_embossed, RollingClock};

/// Digits '0' to '9' and ':' as 2 by 2 glyphs with coverage on the
/// diagonal; digits advance 3, the colon 1.
fn tiny_font(digit_advance: i16) -> &'static Font {
    let mut glyphs = Vec::new();
    for i in 0..11 {
        glyphs.push(GlyphMeta { xmin: 0, ymin: 0, w: 2, h: 2, advance: if i == 10 { 1 } else { 3 }, offset: 0 });
    }
    let glyphs: &'static [GlyphMeta] = Box::leak(glyphs.into_boxed_slice());
    let bitmap: &'static [u8] = Box::leak(vec![255u8, 0, 0, 255].into_boxed_slice());
    Box::leak(Box::new(Font {
        first_char: 48,
        glyphs,
        bitmap,
        ascent: 2,
        descent: 0,
        line_height: 3,
        digit_advance,
    }))
}

fn lit(s: &Surface) -> Vec<(usize, usize)> {
    let mut v = Vec::new();
    for y in 0..s.height() {
        for x in 0..s.width() {
            if s.read_pixel(x, y).a != 0 {
                v.push((x, y));
            }
        }
    }
    v
}

#[test]
fn glyph_lookup_by_code_point() {
    let f = tiny_font(3);
    assert_eq!(f.glyph('0').map(|g| g.advance), Some(3));
    assert_eq!(f.glyph(':').map(|g| g.advance), Some(1));
    assert!(f.glyph('/').is_none());
    assert!(f.glyph(';').is_none());
}

#[test]
fn measure_sums_advances_of_known_glyphs() {
    let f = tiny_font(3);
    assert_eq!(measure(f, "01:"), 7);
    assert_eq!(measure(f, "0x"), 3);
    assert_eq!(measure(f, ""), 0);
}

#[test]
fn draw_char_places_coverage_above_the_baseline() {
    let f = tiny_font(3);
    let mut s = Surface::new(8, 8);
    let adv = draw_char(&mut s, f, '0', 1, 4, Color::white());
    assert_eq!(adv, 3);
    assert_eq!(lit(&s), vec![(1, 2), (2, 3)]);
    assert_eq!(s.read_pixel(1, 2), Color::white());
}

#[test]
fn draw_char_of_unknown_glyph_draws_nothing() {
    let f = tiny_font(3);
    let mut s = Surface::new(8, 8);
    assert_eq!(draw_char(&mut s, f, 'q', 1, 4, Color::white()), 0);
    assert!(lit(&s).is_empty());
}

#[test]
fn draw_char_scales_alpha_by_coverage() {
    let glyphs: &'static [GlyphMeta] =
        Box::leak(vec![GlyphMeta { xmin: 0, ymin: 0, w: 1, h: 1, advance: 2, offset: 0 }].into_boxed_slice());
    let bitmap: &'static [u8] = Box::leak(vec![128u8].into_boxed_slice());
    let f = Font { first_char: 65, glyphs, bitmap, ascent: 1, descent: 0, line_height: 1, digit_advance: 2 };
    let mut s = Surface::new(2, 2);
    draw_char(&mut s, &f, 'A', 0, 1, Color::rgba(10, 20, 30, 200));
    // 200 * 128 / 255, rounded down.
    assert_eq!(s.read_pixel(0, 0), Color::rgba(10, 20, 30, 100));
}

#[test]
fn draw_text_advances_the_pen() {
    let f = tiny_font(3);
    let mut s = Surface::new(8, 8);
    let w = draw_text(&mut s, f, "00", 0, 4, Color::white());
    assert_eq!(w, 6);
    assert_eq!(lit(&s), vec![(0, 2), (3, 2), (1, 3), (4, 3)]);
}

#[test]
fn glyph_embossed_puts_light_below_ink() {
    let f = tiny_font(3);
    let mut s = Surface::new(8, 8);
    glyph_embossed(&mut s, f, '0', 1, 4, 200);
    assert_eq!(s.read_pixel(1, 2), Color::rgba(20, 50, 90, 200));
    assert_eq!(s.read_pixel(1, 3), Color::rgba(255, 255, 255, 54));
    assert_eq!(lit(&s).len(), 4);
}

#[test]
fn embossing_below_four_alpha_is_skipped() {
    let f = tiny_font(3);
    let mut s = Surface::new(8, 8);
    glyph_embossed(&mut s, f, '0', 1, 4, 3);
    text_embossed(&mut s, f, "00", 4, 4, 3);
    assert!(lit(&s).is_empty());
}

#[test]
fn text_embossed_centres_the_run() {
    let f = tiny_font(3);
    let mut s = Surface::new(20, 8);
    text_embossed(&mut s, f, "00", 10, 4, 255);
    // Width 6, so the pen starts at 10 - 3.
    assert_eq!(s.read_pixel(7, 2), Color::ink());
    assert_eq!(s.read_pixel(10, 2), Color::ink());
    assert_eq!(s.read_pixel(6, 2), Color::transparent());
}

#[test]
fn rolling_clock_first_set_just_shows_the_time() {
    let f = tiny_font(3);
    let mut c = RollingClock::new(f, true);
    assert_eq!(c.char_at(0), 0);
    let restarted = c.set(3661);
    assert_eq!(restarted, [false; 8]);
    let shown: Vec<u8> = (0..8).map(|i| c.char_at(i)).collect();
    assert_eq!(shown, b"01:01:01".to_vec());
    let prev: Vec<u8> = (0..8).map(|i| c.prev_at(i)).collect();
    assert_eq!(prev, b"01:01:01".to_vec());
}

#[test]
fn rolling_clock_restarts_changed_digits() {
    let f = tiny_font(3);
    let mut c = RollingClock::new(f, true);
    c.set(3661);
    let restarted = c.set(3670);
    assert_eq!(restarted, [false, false, false, false, false, false, true, true]);
    assert_eq!(c.char_at(6), b'1');
    assert_eq!(c.char_at(7), b'0');
    assert_eq!(c.prev_at(6), b'0');
    assert_eq!(c.prev_at(7), b'1');
    assert_eq!(c.prev_at(5), b':');
}

#[test]
fn rolling_clock_without_seconds_ignores_them() {
    let f = tiny_font(3);
    let mut c = RollingClock::new(f, false);
    assert_eq!(c.len(), 5);
    c.set(60);
    let restarted = c.set(119);
    assert_eq!(restarted, [false; 8]);
    assert_eq!(c.char_at(7), b'9');
}

#[test]
fn rolling_clock_wraps_the_hour() {
    let f = tiny_font(3);
    let mut c = RollingClock::new(f, true);
    c.set(25 * 3600 + 2 * 60 + 3);
    let shown: Vec<u8> = (0..8).map(|i| c.char_at(i)).collect();
    assert_eq!(shown, b"01:02:03".to_vec());
}

#[test]
fn rolling_clock_measures_its_face() {
    let f = tiny_font(5);
    let with = RollingClock::new(f, true);
    assert_eq!(with.width(), 6 * 5 + 2 * 1);
    let without = RollingClock::new(f, false);
    assert_eq!(without.width(), 4 * 5 + 1);
    assert_eq!(with.digit_height(), 2);
    assert_eq!(with.centered(10, '0'), 11);
    assert_eq!(with.centered(10, 'x'), 10);
}

#[test]
fn clock_app_paints_around_its_face() {
    let f = tiny_font(5);
    let c = RollingClock::new(f, true);
    // Baseline 130 / 2 + 2 / 2 - 8 = 58; half width 32 / 2 + 8 = 24.
    assert_eq!(clock_painted(&c, 300, 130), Rect::new(150 - 24, 58 - 4, 150 + 24, 60));
}
