use lumen::gfx::color::{mul255, Color};

#[test]
fn mul255_rounds_to_nearest() {
    assert_eq!(mul255(255, 255), 255);
    assert_eq!(mul255(0, 200), 0);
    assert_eq!(mul255(128, 255), 128);
    assert_eq!(mul255(100, 50), 20);
    assert_eq!(mul255(1, 127), 0);
    assert_eq!(mul255(1, 128), 1);
    for a in 0..=255u32 {
        for b in 0..=255u32 {
            let exact = (a * b + 127) / 255;
            assert_eq!(mul255(a as u8, b as u8) as u32, exact);
        }
    }
}

#[test]
fn constructors_fill_channels() {
    assert_eq!(Color::rgb(1, 2, 3), Color { r: 1, g: 2, b: 3, a: 255 });
    assert_eq!(Color::rgba(1, 2, 3, 4), Color { r: 1, g: 2, b: 3, a: 4 });
    assert_eq!(Color::rgb(9, 9, 9).with_alpha(7), Color::rgba(9, 9, 9, 7));
    assert_eq!(Color::transparent(), Color::rgba(0, 0, 0, 0));
    assert_eq!(Color::white(), Color::rgb(255, 255, 255));
    assert_eq!(Color::black(), Color::rgb(0, 0, 0));
    assert_eq!(Color::ink(), Color::rgb(20, 50, 90));
    assert_eq!(Color::accent(), Color::rgb(255, 220, 130));
    assert_eq!(Color::card(), Color::rgba(255, 255, 255, 130));
}

#[test]
fn fade_scales_alpha_only() {
    let c = Color::rgba(10, 20, 30, 200);
    assert_eq!(c.fade(255), c);
    assert_eq!(c.fade(0).a, 0);
    assert_eq!(c.fade(128), Color::rgba(10, 20, 30, 100));
}

#[test]
fn lerp_hits_both_ends_and_midpoint() {
    let a = Color::rgba(0, 100, 200, 255);
    let b = Color::rgba(255, 0, 100, 55);
    assert_eq!(Color::lerp(a, b, 0), a);
    assert_eq!(Color::lerp(a, b, 255), b);
    // (x * (255 - t) + y * t) / 255, rounded down.
    assert_eq!(Color::lerp(a, b, 51), Color::rgba(51, 80, 180, 215));
}

#[test]
fn over_opaque_source_hides_destination() {
    let src = Color::rgb(1, 2, 3);
    assert_eq!(src.over(Color::rgb(200, 200, 200)), src);
}

#[test]
fn over_transparent_source_keeps_destination() {
    let dst = Color::rgb(200, 100, 0);
    assert_eq!(Color::rgba(5, 5, 5, 0).over(dst), dst);
}

#[test]
fn over_half_alpha_mixes_channels() {
    let src = Color::rgba(200, 100, 50, 128);
    let dst = Color::rgb(0, 0, 255);
    assert_eq!(src.over(dst), Color::rgb(100, 50, 152));
}

#[test]
fn over_straight_weights_by_both_alphas() {
    let src = Color::rgba(200, 100, 50, 128);
    let dst = Color::rgb(0, 0, 255);
    assert_eq!(src.over_straight(dst), Color::rgba(100, 50, 152, 255));
    // Onto nothing, the source stays as it is.
    assert_eq!(src.over_straight(Color::transparent()), src);
    // A transparent source leaves the destination.
    assert_eq!(Color::rgba(9, 9, 9, 0).over_straight(Color::rgba(1, 2, 3, 40)), Color::rgba(1, 2, 3, 40));
    // Half over half: alpha 128 + 128 * 127 / 255.
    let half = Color::rgba(255, 0, 0, 128).over_straight(Color::rgba(0, 0, 255, 128));
    assert_eq!(half.a, ((128 * 255 + 128 * 127) / 255) as u8);
}

#[test]
fn over_straight_never_loses_opacity() {
    for sa in (0..=255u32).step_by(5) {
        for da in (0..=255u32).step_by(5) {
            let out = Color::rgba(10, 200, 30, sa as u8).over_straight(Color::rgba(90, 9, 250, da as u8));
            assert!(out.a as u32 >= sa && out.a as u32 >= da, "{} {}", sa, da);
        }
    }
}
