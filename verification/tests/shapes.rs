use lumen::gfx::canvas::Canvas;
use lumen::gfx::color::Color;
use lumen::gfx::coverage::{circle_coverage, corner_inset, rounded_coverage};
use lumen::gfx::rect::Rect;
use lumen::gfx::shapes::{
    draw_line, fill_circle, fill_rect, fill_rounded_rect, shadow_bounds, stroke_circle, vertical_gradient,
    drop_shadow, fill_ellipse, stroke_rounded_rect,
};
use lumen::gfx::surface::Surface;

fn painted(s: &Surface) -> Vec<(usize, usize)> {
    let mut v = Vec::new();
    for y in 0..s.height() {
        for x in 0..s.width() {
            if s.read_pixel(x, y).a != 0 {
                v.push((x, y));
            }
        }
    }
    v
}

#[test]
fn new_surface_is_transparent() {
    let s = Surface::new(5, 4);
    assert_eq!(s.width(), 5);
    assert_eq!(s.height(), 4);
    assert_eq!(s.clip(), Rect::new(0, 0, 5, 4));
    assert!(painted(&s).is_empty());
    // Outside the surface reads as transparent too.
    assert_eq!(s.read_pixel(9, 9), Color::transparent());
}

#[test]
fn fill_rect_paints_exactly_the_rectangle() {
    let mut s = Surface::new(8, 8);
    let c = Color::rgb(10, 20, 30);
    fill_rect(&mut s, 2, 3, 3, 2, c);
    for y in 0..8 {
        for x in 0..8 {
            let inside = (2..5).contains(&x) && (3..5).contains(&y);
            assert_eq!(s.read_pixel(x, y), if inside { c } else { Color::transparent() });
        }
    }
}

#[test]
fn fill_rect_respects_the_clip() {
    let mut s = Surface::new(8, 8);
    s.set_clip(Rect::new(-5, 0, 4, 4));
    assert_eq!(s.clip(), Rect::new(0, 0, 4, 4));
    fill_rect(&mut s, 0, 0, 8, 8, Color::white());
    let p = painted(&s);
    assert_eq!(p.len(), 16);
    assert!(p.iter().all(|&(x, y)| x < 4 && y < 4));
}

#[test]
fn fill_rect_blends_translucent_colour() {
    let mut s = Surface::new(2, 1);
    fill_rect(&mut s, 0, 0, 2, 1, Color::rgb(0, 0, 255));
    fill_rect(&mut s, 0, 0, 1, 1, Color::rgba(200, 100, 50, 128));
    assert_eq!(s.read_pixel(0, 0), Color::rgba(100, 50, 152, 255));
    assert_eq!(s.read_pixel(1, 0), Color::rgb(0, 0, 255));
}

#[test]
fn fill_rect_with_no_area_does_nothing() {
    let mut s = Surface::new(4, 4);
    fill_rect(&mut s, 1, 1, 0, 3, Color::white());
    fill_rect(&mut s, 1, 1, 3, -1, Color::white());
    assert!(painted(&s).is_empty());
}

#[test]
fn draw_line_visits_bresenham_pixels() {
    let mut s = Surface::new(5, 5);
    draw_line(&mut s, 0, 0, 3, 1, Color::white());
    assert_eq!(painted(&s), vec![(0, 0), (1, 0), (2, 1), (3, 1)]);
}

#[test]
fn draw_line_runs_backwards_and_steep() {
    let mut s = Surface::new(6, 6);
    draw_line(&mut s, 2, 5, 1, 0, Color::white());
    let p = painted(&s);
    assert_eq!(p.len(), 6);
    assert!(p.contains(&(2, 5)) && p.contains(&(1, 0)));
    let mut one = Surface::new(3, 3);
    draw_line(&mut one, 1, 1, 1, 1, Color::white());
    assert_eq!(painted(&one), vec![(1, 1)]);
}

#[test]
fn draw_line_paints_each_pixel_once() {
    let mut s = Surface::new(8, 8);
    fill_rect(&mut s, 0, 0, 8, 8, Color::rgb(0, 0, 0));
    draw_line(&mut s, 0, 0, 7, 7, Color::rgba(255, 255, 255, 128));
    // One blend of half white over black everywhere on the diagonal.
    for i in 0..8 {
        assert_eq!(s.read_pixel(i, i), Color::rgba(128, 128, 128, 255));
    }
}

#[test]
fn draw_line_clips_off_canvas_pixels() {
    let mut s = Surface::new(4, 4);
    draw_line(&mut s, -3, 1, 6, 1, Color::white());
    assert_eq!(painted(&s), vec![(0, 1), (1, 1), (2, 1), (3, 1)]);
}

#[test]
fn circle_coverage_is_full_inside_and_empty_outside() {
    assert_eq!(circle_coverage(8, 8, 8, 8, 5), 255);
    assert_eq!(circle_coverage(0, 0, 8, 8, 5), 0);
    let edge = circle_coverage(11, 11, 8, 8, 5);
    assert!(edge > 0 && edge < 255);
}

#[test]
fn fill_circle_covers_centre_not_corners() {
    let mut s = Surface::new(16, 16);
    let c = Color::rgb(255, 0, 0);
    fill_circle(&mut s, 8, 8, 4, c);
    assert_eq!(s.read_pixel(8, 8), c);
    assert_eq!(s.read_pixel(0, 0), Color::transparent());
    assert_eq!(s.read_pixel(15, 15), Color::transparent());
}

#[test]
fn fill_ellipse_is_wider_than_tall() {
    let mut s = Surface::new(20, 20);
    fill_ellipse(&mut s, 10, 10, 8, 2, Color::white());
    assert_eq!(s.read_pixel(10, 10).a, 255);
    assert_eq!(s.read_pixel(16, 10).a, 255);
    assert_eq!(s.read_pixel(10, 16).a, 0);
}

#[test]
fn stroke_circle_leaves_the_middle_empty() {
    let mut s = Surface::new(30, 30);
    stroke_circle(&mut s, 15, 15, 10, 2, Color::white());
    assert_eq!(s.read_pixel(15, 15).a, 0);
    assert!(s.read_pixel(24, 15).a > 0);
}

#[test]
fn rounded_rect_corner_is_cut() {
    assert_eq!(rounded_coverage(10, 10, 40, 30, 8), 255);
    assert_eq!(rounded_coverage(0, 0, 40, 30, 8), 0);
    let mut s = Surface::new(40, 30);
    fill_rounded_rect(&mut s, 0, 0, 40, 30, 8, Color::white());
    assert_eq!(s.read_pixel(0, 0).a, 0);
    assert_eq!(s.read_pixel(20, 0).a, 255);
    assert_eq!(s.read_pixel(20, 15).a, 255);
}

#[test]
fn corner_inset_is_zero_between_the_corners() {
    assert_eq!(corner_inset(15, 30, 8), 0);
    assert_eq!(corner_inset(0, 30, 0), 0);
    let top = corner_inset(0, 30, 8);
    assert!(top > 0 && top <= 8);
}

#[test]
fn shadow_bounds_reach_past_the_panel() {
    assert_eq!(shadow_bounds(10, 20, 30, 40), Rect::new(-14, 4, 64, 92));
}

#[test]
fn drop_shadow_stays_inside_its_bounds() {
    let mut s = Surface::new(120, 120);
    drop_shadow(&mut s, 40, 40, 30, 20, 6);
    let b = shadow_bounds(40, 40, 30, 20);
    let p = painted(&s);
    assert!(!p.is_empty());
    for (x, y) in p {
        assert!(b.contains(x, y));
    }
}

#[test]
fn vertical_gradient_starts_at_the_top_colour() {
    let mut s = Surface::new(3, 10);
    let top = Color::rgb(0, 0, 0);
    let mid = Color::rgb(100, 100, 100);
    let bottom = Color::rgb(200, 200, 200);
    vertical_gradient(&mut s, top, mid, bottom);
    assert_eq!(s.read_pixel(0, 0), top);
    // Row 5 of 10 sits at the midpoint: 5 * 510 / 10 = 255.
    assert_eq!(s.read_pixel(1, 5), mid);
    assert_eq!(s.read_pixel(2, 9).r, 180);
}

#[test]
fn blit_copies_opaque_pixels() {
    let mut src = Surface::new(2, 2);
    fill_rect(&mut src, 0, 0, 2, 2, Color::rgb(9, 8, 7));
    let mut dst = Surface::new(4, 4);
    src.blit(&mut dst, 1, 1, 255);
    let p = painted(&dst);
    assert_eq!(p, vec![(1, 1), (2, 1), (1, 2), (2, 2)]);
    assert_eq!(dst.read_pixel(2, 2), Color::rgb(9, 8, 7));
}

#[test]
fn blit_at_zero_opacity_does_nothing() {
    let mut src = Surface::new(2, 2);
    fill_rect(&mut src, 0, 0, 2, 2, Color::white());
    let mut dst = Surface::new(4, 4);
    src.blit(&mut dst, 0, 0, 0);
    assert!(painted(&dst).is_empty());
}

#[test]
fn blit_scaled_doubles_each_source_pixel() {
    let mut src = Surface::new(2, 2);
    fill_rect(&mut src, 0, 0, 1, 1, Color::rgb(255, 0, 0));
    fill_rect(&mut src, 1, 0, 1, 1, Color::rgb(0, 255, 0));
    fill_rect(&mut src, 0, 1, 1, 1, Color::rgb(0, 0, 255));
    let mut dst = Surface::new(4, 4);
    src.blit_scaled(&mut dst, 0, 0, 4, 4, 32768, 255);
    assert_eq!(dst.read_pixel(0, 0), Color::rgb(255, 0, 0));
    assert_eq!(dst.read_pixel(1, 1), Color::rgb(255, 0, 0));
    assert_eq!(dst.read_pixel(3, 0), Color::rgb(0, 255, 0));
    assert_eq!(dst.read_pixel(0, 3), Color::rgb(0, 0, 255));
    // The source's bottom-right pixel was transparent and is skipped.
    assert_eq!(dst.read_pixel(3, 3), Color::transparent());
}

#[test]
fn round_corners_softens_only_the_chosen_edge() {
    let mut s = Surface::new(10, 10);
    fill_rect(&mut s, 0, 0, 10, 10, Color::white());
    s.round_corners(4, true, false);
    assert!(s.read_pixel(0, 0).a < 255);
    assert_eq!(s.read_pixel(5, 5).a, 255);
    assert_eq!(s.read_pixel(0, 9).a, 255);
    assert_eq!(s.read_pixel(9, 9).a, 255);
}

#[test]
fn clear_rect_overwrites_without_blending() {
    let mut s = Surface::new(4, 4);
    fill_rect(&mut s, 0, 0, 4, 4, Color::white());
    s.set_clip(Rect::new(0, 0, 1, 1));
    s.clear_rect(Rect::new(1, 1, 9, 9), Color::transparent());
    assert_eq!(s.read_pixel(0, 0), Color::white());
    assert_eq!(s.read_pixel(1, 1), Color::transparent());
    assert_eq!(s.read_pixel(3, 3), Color::transparent());
    assert_eq!(s.read_pixel(3, 0), Color::white());
}

#[test]
fn corner_inset_run_is_fully_covered() {
    let (w, h, r) = (40, 30, 8);
    for ly in 0..h {
        let inset = corner_inset(ly, h, r);
        for lx in inset..w - inset {
            assert_eq!(rounded_coverage(lx, ly, w, h, r), 255, "pixel {},{}", lx, ly);
        }
    }
}

#[test]
fn circle_coverage_matches_the_sample_grid() {
    // The early accept and reject tests agree with counting samples.
    for r in [0i32, 1, 3, 7, 12] {
        for py in -16..16 {
            for px in -16..16 {
                let mut hits = 0i64;
                for sy in 0..4i64 {
                    for sx in 0..4i64 {
                        let x = px as i64 * 256 + sx * 64 + 32;
                        let y = py as i64 * 256 + sy * 64 + 32;
                        let rr = r as i64 * 256;
                        if x * x + y * y < rr * rr {
                            hits += 1;
                        }
                    }
                }
                assert_eq!(circle_coverage(px, py, 0, 0, r) as i64, hits * 255 / 16, "pixel {},{} r {}", px, py, r);
            }
        }
    }
}

#[test]
fn stroke_rounded_rect_draws_the_outermost_ring() {
    let mut s = Surface::new(10, 10);
    stroke_rounded_rect(&mut s, 2, 2, 6, 6, 0, Color::white());
    assert_eq!(s.read_pixel(2, 5), Color::white());
    assert_eq!(s.read_pixel(7, 5), Color::white());
    assert_eq!(s.read_pixel(2, 2), Color::white());
    assert_eq!(s.read_pixel(7, 7), Color::white());
    assert_eq!(s.read_pixel(5, 5), Color::transparent());
    assert_eq!(s.read_pixel(3, 5), Color::transparent());
    assert_eq!(s.read_pixel(0, 0), Color::transparent());
    assert_eq!(painted(&s).len(), 20);
}

#[test]
fn rounded_coverage_is_mirror_symmetric() {
    let (w, h, r) = (23, 17, 6);
    for ly in 0..h {
        for lx in 0..w {
            let c = rounded_coverage(lx, ly, w, h, r);
            assert_eq!(c, rounded_coverage(w - 1 - lx, ly, w, h, r));
            assert_eq!(c, rounded_coverage(lx, h - 1 - ly, w, h, r));
        }
    }
}

#[test]
fn shapes_far_off_the_surface_draw_nothing() {
    let mut s = Surface::new(8, 8);
    fill_rect(&mut s, -2_000_000_000, -5, 1_000_000_000, 20, Color::white());
    drop_shadow(&mut s, 1_000_000_000, 1_000_000_000, 500_000_000, 100, 10);
    assert!(painted(&s).is_empty());
    fill_rect(&mut s, -2_000_000_000, 0, 2_000_000_003, 1, Color::white());
    assert_eq!(painted(&s), vec![(0, 0), (1, 0), (2, 0)]);
}

#[test]
fn drop_shadow_spares_the_panel() {
    let mut s = Surface::new(120, 120);
    drop_shadow(&mut s, 40, 40, 30, 20, 6);
    for py in 40..60usize {
        let inset = corner_inset(py as i32 - 40, 20, 6) as usize;
        for px in 40 + inset..70 - inset {
            assert_eq!(s.read_pixel(px, py), Color::transparent(), "{},{}", px, py);
        }
    }
}
