use lumen::gfx::damage::{Damage, MAX_REGIONS};
use lumen::gfx::rect::Rect;

fn sorted(d: &Damage) -> Vec<(i32, i32, i32, i32)> {
    let mut v: Vec<(i32, i32, i32, i32)> = d.regions().iter().map(|r| (r.x0, r.y0, r.x1, r.y1)).collect();
    v.sort();
    v
}

#[test]
fn damage_starts_empty() {
    let d = Damage::new(100, 100);
    assert!(d.is_empty());
    assert!(d.regions().is_empty());
}

#[test]
fn damage_merges_overlapping_regions() {
    let mut d = Damage::new(100, 100);
    d.add(Rect::new(0, 0, 10, 10));
    d.add(Rect::new(5, 5, 15, 15));
    assert_eq!(sorted(&d), vec![(0, 0, 15, 15)]);
    d.add(Rect::new(50, 50, 60, 60));
    assert_eq!(sorted(&d), vec![(0, 0, 15, 15), (50, 50, 60, 60)]);
    assert!(!d.is_empty());
}

#[test]
fn damage_clips_to_the_screen() {
    let mut d = Damage::new(100, 100);
    d.add(Rect::new(-10, -10, 5, 5));
    assert_eq!(sorted(&d), vec![(0, 0, 5, 5)]);
    d.add(Rect::new(200, 200, 300, 300));
    assert_eq!(sorted(&d), vec![(0, 0, 5, 5)]);
}

#[test]
fn damage_merge_cascades_through_chains() {
    let mut d = Damage::new(100, 100);
    d.add(Rect::new(0, 0, 10, 10));
    d.add(Rect::new(20, 0, 30, 10));
    // Touches both: everything folds into one region.
    d.add(Rect::new(5, 0, 25, 10));
    assert_eq!(sorted(&d), vec![(0, 0, 30, 10)]);
}

#[test]
fn damage_goes_full_above_seventy_percent() {
    let mut d = Damage::new(100, 100);
    d.add(Rect::new(0, 0, 100, 70));
    // Exactly 70% is still tracked region by region.
    assert_eq!(sorted(&d), vec![(0, 0, 100, 70)]);
    d.add(Rect::new(0, 70, 100, 71));
    assert_eq!(d.regions(), &[Rect::new(0, 0, 100, 100)]);
    // A full frame stays full.
    d.add(Rect::new(1, 1, 2, 2));
    assert_eq!(d.regions(), &[Rect::new(0, 0, 100, 100)]);
    d.clear();
    assert!(d.is_empty());
}

#[test]
fn damage_mark_all_repaints_the_screen() {
    let mut d = Damage::new(64, 48);
    d.add(Rect::new(1, 1, 3, 3));
    d.mark_all();
    assert!(!d.is_empty());
    assert_eq!(d.regions(), &[Rect::new(0, 0, 64, 48)]);
}

#[test]
fn damage_grows_the_cheapest_region_when_out_of_slots() {
    let mut d = Damage::new(200, 200);
    for i in 0..MAX_REGIONS as i32 {
        d.add(Rect::new(i * 10, 0, i * 10 + 2, 2));
    }
    assert_eq!(d.regions().len(), MAX_REGIONS);
    d.add(Rect::new(0, 50, 2, 52));
    assert_eq!(d.regions().len(), MAX_REGIONS);
    let got = sorted(&d);
    assert!(got.contains(&(0, 0, 2, 52)));
    for i in 1..MAX_REGIONS as i32 {
        assert!(got.contains(&(i * 10, 0, i * 10 + 2, 2)));
    }
}

#[test]
fn damage_add_all_unions_two_frames() {
    let mut a = Damage::new(100, 100);
    a.add(Rect::new(0, 0, 5, 5));
    let mut b = Damage::new(100, 100);
    b.add(Rect::new(50, 50, 55, 55));
    a.add_all(&b);
    assert_eq!(sorted(&a), vec![(0, 0, 5, 5), (50, 50, 55, 55)]);
    let mut full = Damage::new(100, 100);
    full.mark_all();
    a.add_all(&full);
    assert_eq!(a.regions(), &[Rect::new(0, 0, 100, 100)]);
}

#[test]
fn damage_covers_every_added_pixel() {
    let mut d = Damage::new(40, 40);
    let rects = [Rect::new(1, 1, 4, 9), Rect::new(3, 3, 12, 5), Rect::new(30, 30, 45, 45), Rect::new(20, 2, 22, 4)];
    for r in rects.iter() {
        d.add(*r);
    }
    for x in 0..40usize {
        for y in 0..40usize {
            let added = rects.iter().any(|r| r.contains(x, y));
            let covered = d.regions().iter().any(|r| r.contains(x, y));
            if added {
                assert!(covered, "pixel {},{} lost", x, y);
            }
        }
    }
    for r in d.regions() {
        assert!(r.x0 >= 0 && r.y0 >= 0 && r.x1 <= 40 && r.y1 <= 40);
    }
}

#[test]
fn damage_regions_stay_apart() {
    let mut d = Damage::new(100, 100);
    d.add(Rect::new(0, 0, 10, 10));
    d.add(Rect::new(20, 0, 30, 10));
    d.add(Rect::new(40, 40, 50, 50));
    // Overlaps the first two; the grown box swallows both.
    d.add(Rect::new(5, 5, 25, 8));
    let rs: Vec<Rect> = d.regions().to_vec();
    assert_eq!(rs.len(), 2);
    for i in 0..rs.len() {
        for j in 0..rs.len() {
            if i != j {
                assert!(!rs[i].intersects(&rs[j]));
            }
        }
    }
}

#[test]
fn damage_whole_screen_makes_the_frame_full() {
    let mut other = Damage::new(64, 48);
    other.add(Rect::new(-5, -5, 100, 100));
    assert_eq!(other.regions().to_vec(), vec![Rect::new(0, 0, 64, 48)]);
    let mut d = Damage::new(64, 48);
    d.add(Rect::new(1, 1, 2, 2));
    d.add_all(&other);
    assert_eq!(d.regions().to_vec(), vec![Rect::new(0, 0, 64, 48)]);
    assert!(!d.is_empty());
}
