use vstd::prelude::*;
use crate::gfx::coverage::COORD;
use crate::gfx::rect::{Rect, max_i, max_i32, min_i, min_i32};
use crate::gfx::shapes::tdiv;
use crate::widgets::RollingClock;

verus! {

/// The apps the shell can open.
#[derive(Copy, Clone, PartialEq, Eq, Debug, Structural)]
pub enum AppKind {
    Ball,
    Clock,
}

impl AppKind {
    /// The size an app wants its content area to be.
    pub fn content_size(self) -> (s: (usize, usize))
        ensures
            s == (match self {
                AppKind::Ball => (460usize, 300usize),
                AppKind::Clock => (300usize, 130usize),
            }),
    {
        match self {
            AppKind::Ball => (460, 300),
            AppKind::Clock => (300, 130),
        }
    }
}

/// How far the ball's ink reaches beyond its centre: its outer glow at 1.18
/// times the 24 px radius, times the pulse's 1.4 ceiling, plus a pixel of
/// antialiasing and two of slack.
pub const BALL_PAD: i32 = 42;

/// Half the width of the ball's shadow on the floor.
pub const SHADOW_HALF: i32 = 35;

/// The ball's radius in whole pixels.
pub const BALL_RADIUS: i32 = 24;

/// The least `x` among the points, or `i32::MAX` for none.
pub open spec fn least_x(pts: Seq<(i32, i32)>) -> int
    decreases pts.len(),
{
    if pts.len() == 0 { i32::MAX as int } else { min_i(least_x(pts.drop_last()), pts.last().0 as int) }
}

/// The least `y` among the points, or `i32::MAX` for none.
pub open spec fn least_y(pts: Seq<(i32, i32)>) -> int
    decreases pts.len(),
{
    if pts.len() == 0 { i32::MAX as int } else { min_i(least_y(pts.drop_last()), pts.last().1 as int) }
}

/// The greatest `x` among the points, or `i32::MIN` for none.
pub open spec fn most_x(pts: Seq<(i32, i32)>) -> int
    decreases pts.len(),
{
    if pts.len() == 0 { i32::MIN as int } else { max_i(most_x(pts.drop_last()), pts.last().0 as int) }
}

/// The greatest `y` among the points, or `i32::MIN` for none.
pub open spec fn most_y(pts: Seq<(i32, i32)>) -> int
    decreases pts.len(),
{
    if pts.len() == 0 { i32::MIN as int } else { max_i(most_y(pts.drop_last()), pts.last().1 as int) }
}

/// The corners of the points, as a rectangle from the least to the greatest
/// coordinates (not one past them).
pub open spec fn corners(pts: Seq<(i32, i32)>) -> Rect {
    Rect { x0: least_x(pts) as i32, y0: least_y(pts) as i32, x1: most_x(pts) as i32, y1: most_y(pts) as i32 }
}

/// Everything the ball paints: the corners of its trail and centre grown by
/// `BALL_PAD` (unless they span no area), joined with its shadow on the
/// floor of a surface `height` high.
pub open spec fn ball_ink_spec(pts: Seq<(i32, i32)>, x: int, height: int) -> Rect {
    let c = corners(pts);
    let grown = if c.empty() { c } else {
        Rect { x0: (c.x0 - BALL_PAD) as i32, y0: (c.y0 - BALL_PAD) as i32, x1: (c.x1 + BALL_PAD) as i32, y1: (c.y1 + BALL_PAD) as i32 }
    };
    let floor = Rect { x0: (x - SHADOW_HALF) as i32, y0: (height - BALL_RADIUS) as i32, x1: (x + SHADOW_HALF) as i32, y1: height as i32 };
    grown.union_spec(floor)
}

proof fn lemma_corner_bounds(pts: Seq<(i32, i32)>)
    requires
        pts.len() > 0,
        forall|i: int| 0 <= i < pts.len() ==> -COORD <= #[trigger] pts[i].0 <= COORD && -COORD <= pts[i].1 <= COORD,
    ensures
        -COORD <= least_x(pts) <= COORD, -COORD <= least_y(pts) <= COORD,
        -COORD <= most_x(pts) <= COORD, -COORD <= most_y(pts) <= COORD,
    decreases pts.len(),
{
    let l = pts[pts.len() - 1];
    assert(-COORD <= l.0 <= COORD && -COORD <= l.1 <= COORD);
    if pts.len() > 1 {
        let p = pts.drop_last();
        assert forall|i: int| 0 <= i < p.len() implies -COORD <= #[trigger] p[i].0 <= COORD && -COORD <= p[i].1 <= COORD by {
            assert(p[i] == pts[i]);
        }
        lemma_corner_bounds(p);
    } else {
        assert(pts.drop_last().len() == 0);
        assert(least_x(pts.drop_last()) == i32::MAX as int);
        assert(least_y(pts.drop_last()) == i32::MAX as int);
        assert(most_x(pts.drop_last()) == i32::MIN as int);
        assert(most_y(pts.drop_last()) == i32::MIN as int);
    }
}

proof fn lemma_corners_range(pts: Seq<(i32, i32)>)
    ensures
        i32::MIN <= least_x(pts) <= i32::MAX, i32::MIN <= least_y(pts) <= i32::MAX,
        i32::MIN <= most_x(pts) <= i32::MAX, i32::MIN <= most_y(pts) <= i32::MAX,
    decreases pts.len(),
{
    if pts.len() > 0 {
        lemma_corners_range(pts.drop_last());
    }
}

/// The region the ball app paints: its trail points and the ball at
/// `(x, y)`, padded for glow and antialiasing, and its shadow on the floor
/// of a surface `height` high.
pub fn ball_ink(trail: &[(i32, i32)], x: i32, y: i32, height: i32) -> (r: Rect)
    requires
        forall|i: int| 0 <= i < trail@.len() ==> -COORD <= #[trigger] trail@[i].0 <= COORD && -COORD <= trail@[i].1 <= COORD,
        -COORD <= x <= COORD, -COORD <= y <= COORD, -COORD <= height <= COORD,
    ensures
        r == ball_ink_spec(trail@.push((x, y)), x as int, height as int),
{
    let ghost pts = trail@.push((x, y));
    let mut r = Rect::new(i32::MAX, i32::MAX, i32::MIN, i32::MIN);
    let mut i: usize = 0;
    while i < trail.len()
        invariant
            i <= trail@.len(),
            r == corners(trail@.take(i as int)),
        decreases trail@.len() - i,
    {
        let (tx, ty) = trail[i];
        proof {
            assert(trail@.take(i + 1).drop_last() =~= trail@.take(i as int));
            assert(trail@.take(i + 1).last() == (tx, ty));
            lemma_corners_range(trail@.take(i as int));
        }
        r.x0 = min_i32(r.x0, tx);
        r.y0 = min_i32(r.y0, ty);
        r.x1 = max_i32(r.x1, tx);
        r.y1 = max_i32(r.y1, ty);
        i += 1;
    }
    proof {
        assert(trail@.take(trail@.len() as int) =~= trail@);
        assert(pts.drop_last() =~= trail@);
    }
    r.x0 = min_i32(r.x0, x);
    r.y0 = min_i32(r.y0, y);
    r.x1 = max_i32(r.x1, x);
    r.y1 = max_i32(r.y1, y);
    proof {
        assert forall|i: int| 0 <= i < pts.len() implies -COORD <= #[trigger] pts[i].0 <= COORD && -COORD <= pts[i].1 <= COORD by {
            if i < trail@.len() { assert(pts[i] == trail@[i]); }
        }
        lemma_corner_bounds(pts);
    }
    let r = r.expand(BALL_PAD);
    let floor = Rect::new(x - SHADOW_HALF, height - BALL_RADIUS, x + SHADOW_HALF, height);
    r.union(&floor)
}

/// Where the clock app paints on a `width` by `height` surface: the face
/// centred a little above the middle, with room above for a rolling digit.
pub open spec fn clock_painted_spec(width: int, height: int, digit_h: int, face_w: int) -> Rect {
    let baseline = tdiv(height, 2) + tdiv(digit_h, 2) - 8;
    let half = tdiv(face_w, 2) + 8;
    Rect {
        x0: (tdiv(width, 2) - half) as i32,
        y0: (baseline - digit_h - digit_h) as i32,
        x1: (tdiv(width, 2) + half) as i32,
        y1: (baseline + digit_h) as i32,
    }
}

/// The region the clock app paints on its `width` by `height` surface.
pub fn clock_painted(clock: &RollingClock, width: i32, height: i32) -> (r: Rect)
    requires
        -COORD <= width <= COORD, -COORD <= height <= COORD,
    ensures
        r == clock_painted_spec(width as int, height as int, clock.digit_height_spec(), clock.width_spec()),
{
    let digit_h = clock.digit_height();
    let baseline = height / 2 + digit_h / 2 - 8;
    let half = clock.width() / 2 + 8;
    Rect::new(width / 2 - half, baseline - digit_h - digit_h, width / 2 + half, baseline + digit_h)
}

} // verus!
