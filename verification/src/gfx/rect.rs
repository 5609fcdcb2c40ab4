use vstd::prelude::*;

verus! {

/// The smaller of two integers.
pub open spec fn min_i(a: int, b: int) -> int {
    if a <= b { a } else { b }
}

/// The larger of two integers.
pub open spec fn max_i(a: int, b: int) -> int {
    if a >= b { a } else { b }
}

pub fn min_i32(a: i32, b: i32) -> (r: i32)
    ensures r == min_i(a as int, b as int),
{
    if a <= b { a } else { b }
}

pub fn max_i32(a: i32, b: i32) -> (r: i32)
    ensures r == max_i(a as int, b as int),
{
    if a >= b { a } else { b }
}

/// A half-open rectangle in screen pixels: `x0..x1` by `y0..y1`.
#[derive(Copy, Clone, PartialEq, Eq, Debug, Structural)]
pub struct Rect {
    pub x0: i32,
    pub y0: i32,
    pub x1: i32,
    pub y1: i32,
}

impl Rect {
    /// No pixel at all.
    pub open spec fn empty(self) -> bool {
        self.x1 <= self.x0 || self.y1 <= self.y0
    }

    /// Whether the pixel `(x, y)` lies inside.
    pub open spec fn has(self, x: int, y: int) -> bool {
        self.x0 <= x < self.x1 && self.y0 <= y < self.y1
    }

    /// The number of pixels inside.
    pub open spec fn area_spec(self) -> int {
        if self.empty() { 0 } else { (self.x1 - self.x0) * (self.y1 - self.y0) }
    }

    /// Its sides are short enough that their lengths fit an `i32`.
    pub open spec fn sized(self) -> bool {
        self.x1 - self.x0 <= i32::MAX && self.y1 - self.y0 <= i32::MAX
    }

    /// `self` lies inside `outer`, corner by corner.
    pub open spec fn within(self, outer: Rect) -> bool {
        outer.x0 <= self.x0 && outer.y0 <= self.y0 && self.x1 <= outer.x1 && self.y1 <= outer.y1
    }

    pub open spec fn intersect_spec(self, other: Rect) -> Rect {
        Rect {
            x0: max_i(self.x0 as int, other.x0 as int) as i32,
            y0: max_i(self.y0 as int, other.y0 as int) as i32,
            x1: min_i(self.x1 as int, other.x1 as int) as i32,
            y1: min_i(self.y1 as int, other.y1 as int) as i32,
        }
    }

    pub open spec fn union_spec(self, other: Rect) -> Rect {
        if self.empty() {
            other
        } else if other.empty() {
            self
        } else {
            Rect {
                x0: min_i(self.x0 as int, other.x0 as int) as i32,
                y0: min_i(self.y0 as int, other.y0 as int) as i32,
                x1: max_i(self.x1 as int, other.x1 as int) as i32,
                y1: max_i(self.y1 as int, other.y1 as int) as i32,
            }
        }
    }

    pub open spec fn intersects_spec(self, other: Rect) -> bool {
        self.x0 < other.x1 && other.x0 < self.x1 && self.y0 < other.y1 && other.y0 < self.y1
    }

    pub fn new(x0: i32, y0: i32, x1: i32, y1: i32) -> (r: Rect)
        ensures r == (Rect { x0, y0, x1, y1 }),
    {
        Rect { x0, y0, x1, y1 }
    }

    pub fn from_size(x: i32, y: i32, w: i32, h: i32) -> (r: Rect)
        requires
            i32::MIN <= x + w <= i32::MAX,
            i32::MIN <= y + h <= i32::MAX,
        ensures r == (Rect { x0: x, y0: y, x1: (x + w) as i32, y1: (y + h) as i32 }),
    {
        Rect { x0: x, y0: y, x1: x + w, y1: y + h }
    }

    pub fn is_empty(&self) -> (r: bool)
        ensures r == self.empty(),
    {
        self.x1 <= self.x0 || self.y1 <= self.y0
    }

    /// The number of pixels inside; zero for an empty rectangle.
    pub fn area(&self) -> (r: i64)
        requires self.sized(),
        ensures r == self.area_spec(),
    {
        if self.is_empty() {
            0
        } else {
            let w = (self.x1 - self.x0) as i64;
            let h = (self.y1 - self.y0) as i64;
            assert(0 < w * h <= 0x7fff_ffff * 0x7fff_ffff) by (nonlinear_arith)
                requires 0 < w <= 0x7fff_ffff, 0 < h <= 0x7fff_ffff;
            w * h
        }
    }

    /// Whether the pixel at column `x`, row `y` lies inside. The coordinates
    /// are taken as signed 64-bit values, as the screen is far narrower.
    pub fn contains(&self, x: usize, y: usize) -> (r: bool)
        ensures r == self.has((x as i64) as int, (y as i64) as int),
    {
        let (x, y) = (x as i64, y as i64);
        x >= self.x0 as i64 && x < self.x1 as i64 && y >= self.y0 as i64 && y < self.y1 as i64
    }

    pub fn intersects(&self, other: &Rect) -> (r: bool)
        ensures r == self.intersects_spec(*other),
    {
        self.x0 < other.x1 && other.x0 < self.x1 && self.y0 < other.y1 && other.y0 < self.y1
    }

    /// The pixels both rectangles hold.
    pub fn intersect(&self, other: &Rect) -> (r: Rect)
        ensures r == self.intersect_spec(*other),
    {
        Rect {
            x0: max_i32(self.x0, other.x0),
            y0: max_i32(self.y0, other.y0),
            x1: min_i32(self.x1, other.x1),
            y1: min_i32(self.y1, other.y1),
        }
    }

    /// The smallest rectangle containing both. An empty operand is ignored, so
    /// this can be folded over a list that starts out empty.
    pub fn union(&self, other: &Rect) -> (r: Rect)
        ensures r == self.union_spec(*other),
    {
        if self.is_empty() {
            return *other;
        }
        if other.is_empty() {
            return *self;
        }
        Rect {
            x0: min_i32(self.x0, other.x0),
            y0: min_i32(self.y0, other.y0),
            x1: max_i32(self.x1, other.x1),
            y1: max_i32(self.y1, other.y1),
        }
    }

    /// Grows every side outward by `by` (inward for a negative `by`); an
    /// empty rectangle stays as it is.
    pub fn expand(&self, by: i32) -> (r: Rect)
        requires
            !self.empty() ==> i32::MIN <= self.x0 - by && self.x1 + by <= i32::MAX
                && i32::MIN <= self.y0 - by && self.y1 + by <= i32::MAX
                && i32::MIN <= self.x1 + by && self.x0 - by <= i32::MAX
                && i32::MIN <= self.y1 + by && self.y0 - by <= i32::MAX,
        ensures
            r == (if self.empty() { *self } else {
                Rect {
                    x0: (self.x0 - by) as i32,
                    y0: (self.y0 - by) as i32,
                    x1: (self.x1 + by) as i32,
                    y1: (self.y1 + by) as i32,
                }
            }),
    {
        if self.is_empty() {
            return *self;
        }
        Rect { x0: self.x0 - by, y0: self.y0 - by, x1: self.x1 + by, y1: self.y1 + by }
    }

    /// Moves the rectangle by `(dx, dy)`; an empty rectangle stays as it is.
    pub fn translate(&self, dx: i32, dy: i32) -> (r: Rect)
        requires
            !self.empty() ==> i32::MIN <= self.x0 + dx <= i32::MAX && i32::MIN <= self.x1 + dx <= i32::MAX
                && i32::MIN <= self.y0 + dy <= i32::MAX && i32::MIN <= self.y1 + dy <= i32::MAX,
        ensures
            r == (if self.empty() { *self } else {
                Rect {
                    x0: (self.x0 + dx) as i32,
                    y0: (self.y0 + dy) as i32,
                    x1: (self.x1 + dx) as i32,
                    y1: (self.y1 + dy) as i32,
                }
            }),
    {
        if self.is_empty() {
            return *self;
        }
        Rect { x0: self.x0 + dx, y0: self.y0 + dy, x1: self.x1 + dx, y1: self.y1 + dy }
    }
}

/// The rectangle with no pixels, at the origin.
pub fn empty_rect() -> (r: Rect)
    ensures r == (Rect { x0: 0, y0: 0, x1: 0, y1: 0 }),
{
    Rect { x0: 0, y0: 0, x1: 0, y1: 0 }
}

/// A pixel lies in the intersection exactly when it lies in both rectangles.
pub proof fn lemma_intersect_has(a: Rect, b: Rect, x: int, y: int)
    ensures a.intersect_spec(b).has(x, y) <==> (a.has(x, y) && b.has(x, y)),
{
}

/// Two non-empty rectangles intersect exactly when their intersection holds a
/// pixel, and the test does not depend on the order of its operands.
pub proof fn lemma_intersects_nonempty(a: Rect, b: Rect)
    ensures
        !a.empty() && !b.empty() ==> (a.intersects_spec(b) <==> !a.intersect_spec(b).empty()),
        a.intersects_spec(b) <==> b.intersects_spec(a),
        !a.empty() && !b.empty() && !a.intersects_spec(b) ==>
            forall|x: int, y: int| !(#[trigger] a.has(x, y) && b.has(x, y)),
{
}

/// The union holds every pixel of both operands, and an empty operand leaves
/// the other unchanged.
pub proof fn lemma_union_covers(a: Rect, b: Rect, x: int, y: int)
    ensures
        a.has(x, y) || b.has(x, y) ==> a.union_spec(b).has(x, y),
        a.empty() ==> a.union_spec(b) == b,
        b.empty() && !a.empty() ==> a.union_spec(b) == a,
{
}

/// The union of two rectangles inside a third is inside it too, and so is the
/// intersection of any rectangle with it.
pub proof fn lemma_union_within(a: Rect, b: Rect, outer: Rect)
    ensures
        (a.empty() || a.within(outer)) && (b.empty() || b.within(outer))
            ==> (a.union_spec(b).empty() || a.union_spec(b).within(outer)),
        a.intersect_spec(outer).within(outer),
{
}

/// An empty operand leaves a union unchanged, so unions can be folded over a
/// list starting from an empty rectangle.
pub proof fn lemma_union_empty(a: Rect, b: Rect)
    ensures
        a.empty() ==> a.union_spec(b) == b,
        b.empty() && !a.empty() ==> a.union_spec(b) == a,
{
}

/// An empty rectangle holds no pixel, and its area is zero.
pub proof fn lemma_empty_has_nothing(a: Rect, x: int, y: int)
    ensures
        a.empty() ==> !a.has(x, y),
        a.empty() <==> a.area_spec() == 0,
        a.area_spec() >= 0,
{
    if !a.empty() {
        assert((a.x1 - a.x0) * (a.y1 - a.y0) > 0) by (nonlinear_arith)
            requires a.x1 - a.x0 > 0, a.y1 - a.y0 > 0;
    }
}

/// Moving a rectangle keeps its area; the pixel `(x, y)` of the unmoved one is
/// the pixel `(x + dx, y + dy)` of the moved one.
pub proof fn lemma_translate_moves(a: Rect, dx: int, dy: int, x: int, y: int)
    requires
        !a.empty(),
        i32::MIN <= a.x0 + dx <= i32::MAX, i32::MIN <= a.x1 + dx <= i32::MAX,
        i32::MIN <= a.y0 + dy <= i32::MAX, i32::MIN <= a.y1 + dy <= i32::MAX,
    ensures ({
        let t = Rect { x0: (a.x0 + dx) as i32, y0: (a.y0 + dy) as i32, x1: (a.x1 + dx) as i32, y1: (a.y1 + dy) as i32 };
        &&& t.area_spec() == a.area_spec()
        &&& a.has(x, y) <==> t.has(x + dx, y + dy)
    }),
{
}

} // verus!
