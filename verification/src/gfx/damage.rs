use vstd::prelude::*;
use super::rect::{Rect, empty_rect, lemma_union_covers, lemma_union_within};

verus! {

/// How many separate regions a frame may repaint before they start getting
/// merged. Each region costs a background restore and a present, so a handful
/// of tight rectangles beats a long list of tiny ones.
pub const MAX_REGIONS: usize = 8;

/// Above this share of the screen, in percent, tracking regions stops paying
/// for itself and the frame is repainted whole.
pub const FULL_SCREEN_FRACTION: i64 = 70;

/// The largest screen area the area bookkeeping is sized for: with up to
/// `MAX_REGIONS` regions, each no larger than the screen, the percentage
/// test on their total still fits an `i64`.
pub const MAX_AREA: i64 = 11_529_215_046_068_469;

/// Some rectangle of `rs` holds the pixel `(x, y)`.
pub open spec fn covered_by(rs: Seq<Rect>, x: int, y: int) -> bool {
    exists|j: int| 0 <= j < rs.len() && #[trigger] rs[j].has(x, y)
}

/// The total number of pixels of the rectangles of `rs`, overlaps counted
/// once per rectangle.
pub open spec fn sum_area(rs: Seq<Rect>) -> int
    decreases rs.len(),
{
    if rs.len() == 0 { 0 } else { sum_area(rs.drop_last()) + rs.last().area_spec() }
}

/// The bounding box of `c` and every rectangle of `s`.
pub open spec fn hull(c: Rect, s: Seq<Rect>) -> Rect
    decreases s.len(),
{
    if s.len() == 0 { c } else { hull(c, s.drop_last()).union_spec(s.last()) }
}

/// Each rectangle of `s` overlaps the bounding box of `c` and the rectangles
/// before it: the order in which a growing region swallows its neighbours.
pub open spec fn chain(c: Rect, s: Seq<Rect>) -> bool {
    forall|i: int| 0 <= i < s.len() ==> (#[trigger] s[i]).intersects_spec(hull(c, s.take(i)))
}

/// How many pixels growing `r` to take in `h` adds.
pub open spec fn growth(r: Rect, h: Rect) -> int {
    r.union_spec(h).area_spec() - r.area_spec()
}

/// The first of the first `n` rectangles of `s` that grows least to take
/// in `h`.
pub open spec fn cheapest(s: Seq<Rect>, h: Rect, n: int) -> int
    decreases n,
{
    if n <= 1 {
        0
    } else {
        let b = cheapest(s, h, n - 1);
        if growth(s[n - 1], h) < growth(s[b], h) { n - 1 } else { b }
    }
}

/// The regions after `h` is placed among `kept`: appended while there is
/// room, else swallowed by the region that grows least for it.
pub open spec fn placed(kept: Seq<Rect>, h: Rect) -> Seq<Rect> {
    if kept.len() < MAX_REGIONS {
        kept.push(h)
    } else {
        let b = cheapest(kept, h, kept.len() as int);
        kept.update(b, kept[b].union_spec(h))
    }
}

/// What adding the clipped rectangle `c` to the regions `old` gives: the
/// regions overlapping it are swallowed, one after another, by a box that
/// grows to cover them, until no remaining region overlaps the box; the box
/// is then placed among the rest; and if the regions then cover more than
/// `FULL_SCREEN_FRACTION` percent of `screen` the whole frame is repainted.
pub open spec fn add_outcome(old: Seq<Rect>, c: Rect, screen: Rect, full: bool, live: Seq<Rect>,
    absorbed: Seq<Rect>, kept: Seq<Rect>) -> bool {
    let h = hull(c, absorbed);
    &&& kept.to_multiset().add(absorbed.to_multiset()) == old.to_multiset()
    &&& chain(c, absorbed)
    &&& forall|k: int| 0 <= k < kept.len() ==> !(#[trigger] kept[k]).intersects_spec(h)
    &&& full <==> sum_area(placed(kept, h)) * 100 > screen.area_spec() * FULL_SCREEN_FRACTION
    &&& !full ==> live == placed(kept, h)
}

/// A screen whose area arithmetic cannot overflow.
pub open spec fn screen_ok(screen: Rect) -> bool {
    screen.x0 == 0 && screen.y0 == 0 && screen.area_spec() <= MAX_AREA
}

/// The regions of the screen that changed this frame.
///
/// The invariant the whole scheme rests on: the back buffer always holds the
/// last frame that was presented. So a region only needs repainting if
/// something will be drawn there this frame, or something was drawn there last
/// frame and has since moved away.
#[derive(Copy, Clone)]
pub struct Damage {
    regions: [Rect; MAX_REGIONS],
    len: usize,
    full: bool,
    screen: Rect,
}

/// A slice holding exactly `r`.
#[verifier::external_body]
fn slice_of_one(r: &Rect) -> (s: &[Rect])
    ensures s@ == seq![*r],
{
    core::slice::from_ref(r)
}

/// A rectangle inside a bounded screen has a small, non-negative area.
proof fn lemma_area_bound(r: Rect, screen: Rect)
    requires
        screen_ok(screen),
        r.within(screen),
    ensures
        r.sized(),
        0 <= r.area_spec() <= screen.area_spec(),
        r.area_spec() <= MAX_AREA,
{
    if !r.empty() {
        let (w, h) = (r.x1 - r.x0, r.y1 - r.y0);
        let (sw, sh) = (screen.x1 - screen.x0, screen.y1 - screen.y0);
        assert(0 <= w * h <= sw * sh) by (nonlinear_arith)
            requires 0 < w <= sw, 0 < h <= sh;
    }
}

/// The total area of rectangles that each lie in a bounded screen.
proof fn lemma_sum_area_bound(rs: Seq<Rect>, screen: Rect)
    requires
        screen_ok(screen),
        forall|i: int| 0 <= i < rs.len() ==> (#[trigger] rs[i]).within(screen),
    ensures
        0 <= sum_area(rs) <= rs.len() * (MAX_AREA),
    decreases rs.len(),
{
    if rs.len() > 0 {
        lemma_sum_area_bound(rs.drop_last(), screen);
        lemma_area_bound(rs.last(), screen);
    }
}

/// Removing the rectangle at `i` by moving the last one into its place, and
/// growing `cand` to swallow it, loses no pixel.
proof fn lemma_swap_remove_cover(pre: Seq<Rect>, i: int, post: Seq<Rect>, cand: Rect, grown: Rect)
    requires
        0 <= i < pre.len(),
        post == pre.update(i, pre.last()).drop_last(),
        grown == pre[i].union_spec(cand),
    ensures
        forall|x: int, y: int| (cand.has(x, y) || covered_by(pre, x, y))
            ==> (grown.has(x, y) || covered_by(post, x, y)),
{
    assert forall|x: int, y: int| (cand.has(x, y) || covered_by(pre, x, y))
        implies (grown.has(x, y) || covered_by(post, x, y)) by {
        lemma_union_covers(pre[i], cand, x, y);
        if !cand.has(x, y) {
            let j = choose|j: int| 0 <= j < pre.len() && #[trigger] pre[j].has(x, y);
            if j == i {
            } else if j == pre.len() - 1 {
                assert(post[i].has(x, y));
            } else {
                assert(post[j].has(x, y));
            }
        }
    }
}

/// Removing the rectangle at `i` by moving the last one into its place keeps
/// the others: the result and the removed one are the rectangles before.
proof fn lemma_swap_remove_multiset(pre: Seq<Rect>, i: int, post: Seq<Rect>)
    requires
        0 <= i < pre.len(),
        post == pre.update(i, pre.last()).drop_last(),
    ensures post.to_multiset().insert(pre[i]) == pre.to_multiset(),
{
    broadcast use vstd::seq_lib::group_to_multiset_ensures, vstd::multiset::group_multiset_axioms;
    let q = pre.update(i, pre.last());
    assert(q.last() == pre.last());
    assert(post =~= q.remove(q.len() - 1));
    assert(q.to_multiset() == pre.to_multiset().insert(pre.last()).remove(pre[i]));
    assert(post.to_multiset() == q.to_multiset().remove(pre.last()));
    assert(pre.to_multiset().count(pre[i]) > 0) by {
        assert(pre.contains(pre[i]));
    }
    assert(post.to_multiset().insert(pre[i]) =~= pre.to_multiset());
}

/// Swallowing a rectangle that overlaps the box grown so far extends the
/// chain, and the box grows to cover it.
proof fn lemma_chain_grows(c: Rect, s: Seq<Rect>, r: Rect)
    requires
        chain(c, s),
        r.intersects_spec(hull(c, s)),
    ensures
        chain(c, s.push(r)),
        hull(c, s.push(r)) == hull(c, s).union_spec(r),
{
    let t = s.push(r);
    assert(t.drop_last() =~= s);
    assert forall|i: int| 0 <= i < t.len() implies (#[trigger] t[i]).intersects_spec(hull(c, t.take(i))) by {
        if i < s.len() {
            assert(t.take(i) =~= s.take(i));
        } else {
            assert(t.take(i) =~= s);
        }
    }
}

impl Damage {
    /// The separate regions being tracked, in storage order.
    pub closed spec fn live(self) -> Seq<Rect> {
        self.regions@.subrange(0, self.len as int)
    }

    /// The whole screen is to be repainted.
    pub closed spec fn is_full(self) -> bool {
        self.full
    }

    pub closed spec fn screen_spec(self) -> Rect {
        self.screen
    }

    /// Whether the pixel `(x, y)` is to be repainted.
    pub open spec fn covers(self, x: int, y: int) -> bool {
        if self.is_full() { self.screen_spec().has(x, y) } else { covered_by(self.live(), x, y) }
    }

    /// Every region is a non-empty part of the screen, there are at most
    /// `MAX_REGIONS` of them, and a full frame keeps no separate regions.
    /// Below the threshold that makes a frame full, the regions cover less
    /// than `FULL_SCREEN_FRACTION` percent of the screen.
    pub closed spec fn wf(self) -> bool {
        &&& self.shaped()
        &&& self.full ==> self.len == 0
        &&& !self.full ==> sum_area(self.live()) * 100 <= self.screen.area_spec() * FULL_SCREEN_FRACTION
    }

    /// At most `MAX_REGIONS` regions, each a non-empty part of a bounded screen.
    pub closed spec fn shaped(self) -> bool {
        &&& self.len <= MAX_REGIONS
        &&& screen_ok(self.screen)
        &&& forall|i: int| 0 <= i < self.len ==> {
            &&& !(#[trigger] self.regions@[i]).empty()
            &&& self.regions@[i].within(self.screen)
        }
    }

    pub fn new(width: i32, height: i32) -> (d: Damage)
        requires
            (Rect { x0: 0, y0: 0, x1: width, y1: height }).area_spec() <= MAX_AREA,
        ensures
            d.wf(),
            d.screen_spec() == (Rect { x0: 0, y0: 0, x1: width, y1: height }),
            !d.is_full(),
            d.live().len() == 0,
            forall|x: int, y: int| !d.covers(x, y),
    {
        let e = empty_rect();
        Damage {
            regions: [e, e, e, e, e, e, e, e],
            len: 0,
            full: false,
            screen: Rect::new(0, 0, width, height),
        }
    }

    /// Forgets every region.
    pub fn clear(&mut self)
        requires old(self).wf(),
        ensures
            final(self).wf(),
            final(self).screen_spec() == old(self).screen_spec(),
            !final(self).is_full(),
            final(self).live().len() == 0,
            forall|x: int, y: int| !final(self).covers(x, y),
    {
        self.len = 0;
        self.full = false;
    }

    /// Asks for the whole screen to be repainted.
    pub fn mark_all(&mut self)
        requires old(self).wf(),
        ensures
            final(self).wf(),
            final(self).screen_spec() == old(self).screen_spec(),
            final(self).is_full(),
            final(self).live().len() == 0,
            forall|x: int, y: int| final(self).covers(x, y) <==> final(self).screen_spec().has(x, y),
    {
        self.full = true;
        self.len = 0;
    }

    /// Nothing is to be repainted.
    pub fn is_empty(&self) -> (r: bool)
        requires self.wf(),
        ensures
            r == (!self.is_full() && self.live().len() == 0),
            r ==> forall|x: int, y: int| !self.covers(x, y),
    {
        !self.full && self.len == 0
    }

    /// The area of all regions together, overlaps counted once per region.
    fn total_area(&self) -> (r: i64)
        requires self.shaped(),
        ensures
            r == sum_area(self.live()),
            0 <= r <= MAX_REGIONS * (MAX_AREA),
    {
        let mut acc: i64 = 0;
        let mut i: usize = 0;
        while i < self.len
            invariant
                self.shaped(),
                i <= self.len,
                acc == sum_area(self.live().subrange(0, i as int)),
                0 <= acc <= i * (MAX_AREA),
            decreases self.len - i,
        {
            let r = self.regions[i];
            proof {
                lemma_area_bound(r, self.screen);
                assert(self.live().subrange(0, i + 1).drop_last() =~= self.live().subrange(0, i as int));
                assert((i + 1) * (MAX_AREA) == i * (MAX_AREA) + MAX_AREA)
                    by (nonlinear_arith);
                assert(i * (MAX_AREA) <= MAX_REGIONS * (MAX_AREA))
                    by (nonlinear_arith) requires i <= MAX_REGIONS;
            }
            acc = acc + r.area();
            i = i + 1;
        }
        assert(self.live().subrange(0, self.len as int) =~= self.live());
        assert(self.len * (MAX_AREA) <= MAX_REGIONS * (MAX_AREA))
            by (nonlinear_arith) requires self.len <= MAX_REGIONS;
        acc
    }

    /// Claims `rect`, clipped to the screen, for repainting. It is folded into
    /// any region it overlaps, repeatedly, until no two overlap it; past
    /// `MAX_REGIONS` it grows whichever region swallows it most cheaply; and
    /// once the regions add up to more than `FULL_SCREEN_FRACTION` percent of
    /// the screen the whole frame is marked instead.
    pub fn add(&mut self, rect: Rect)
        requires old(self).wf(),
        ensures
            final(self).wf(),
            final(self).screen_spec() == old(self).screen_spec(),
            old(self).is_full() ==> *final(self) == *old(self),
            rect.intersect_spec(old(self).screen_spec()).empty() ==> *final(self) == *old(self),
            forall|x: int, y: int| old(self).covers(x, y) ==> final(self).covers(x, y),
            forall|x: int, y: int| rect.has(x, y) && old(self).screen_spec().has(x, y)
                ==> final(self).covers(x, y),
            !final(self).is_full() ==> final(self).live().len() <= old(self).live().len() + 1,
            ({
                let clipped = rect.intersect_spec(old(self).screen_spec());
                let old_live = old(self).live();
                (!old(self).is_full() && !clipped.empty() && old_live.len() < MAX_REGIONS
                    && forall|k: int| 0 <= k < old_live.len() ==> !(#[trigger] old_live[k]).intersects_spec(clipped))
                ==> {
                    &&& final(self).is_full() <==> (sum_area(old_live) + clipped.area_spec()) * 100
                        > old(self).screen_spec().area_spec() * FULL_SCREEN_FRACTION
                    &&& !final(self).is_full() ==> final(self).live() == old_live.push(clipped)
                }
            }),
            !old(self).is_full() && !rect.intersect_spec(old(self).screen_spec()).empty() ==>
                exists|absorbed: Seq<Rect>, kept: Seq<Rect>| add_outcome(old(self).live(),
                    rect.intersect_spec(old(self).screen_spec()), old(self).screen_spec(), final(self).is_full(),
                    final(self).live(), absorbed, kept),
    {
        if self.full {
            return;
        }
        let clipped = rect.intersect(&self.screen);
        if clipped.is_empty() {
            return;
        }
        let ghost orig = self.live();
        let ghost pre_self = *self;
        proof { lemma_union_within(rect, rect, self.screen); }
        assert(clipped.within(self.screen));

        // Fold into an overlapping region if there is one. Merging can make the
        // merged region overlap a third, so keep folding until it settles.
        let mut candidate = clipped;
        let mut i: usize = 0;
        let ghost mut absorbed: Seq<Rect> = Seq::empty();
        proof {
            broadcast use vstd::seq_lib::group_to_multiset_ensures, vstd::multiset::group_multiset_axioms;
            assert(Seq::<Rect>::empty().to_multiset() =~= vstd::multiset::Multiset::empty());
            assert(orig.to_multiset().add(Seq::<Rect>::empty().to_multiset()) =~= orig.to_multiset());
            assert(hull(clipped, absorbed) == clipped);
        }
        while i < self.len
            invariant
                self.live().to_multiset().add(absorbed.to_multiset()) == orig.to_multiset(),
                chain(clipped, absorbed),
                candidate == hull(clipped, absorbed),
                forall|k: int| 0 <= k < i ==> !(#[trigger] self.live()[k]).intersects_spec(candidate),
                self.len <= MAX_REGIONS,
                !self.full,
                self.screen == pre_self.screen,
                screen_ok(self.screen),
                i <= self.len,
                !candidate.empty(),
                candidate.within(self.screen),
                forall|k: int| 0 <= k < self.len ==> {
                    &&& !(#[trigger] self.regions@[k]).empty()
                    &&& self.regions@[k].within(self.screen)
                },
                forall|x: int, y: int| (covered_by(orig, x, y) || clipped.has(x, y))
                    ==> (candidate.has(x, y) || covered_by(self.live(), x, y)),
                self.len <= orig.len(),
                clipped == rect.intersect_spec(pre_self.screen),
                (forall|k: int| 0 <= k < orig.len() ==> !(#[trigger] orig[k]).intersects_spec(clipped))
                    ==> candidate == clipped && self.live() == orig,
            decreases 16 * self.len + 16 - i,
        {
            if self.regions[i].intersects(&candidate) {
                proof {
                    if forall|k: int| 0 <= k < orig.len() ==> !(#[trigger] orig[k]).intersects_spec(clipped) {
                        assert(orig[i as int] == self.regions@[i as int]);
                    }
                }
                let ghost pre = self.live();
                let ghost cand0 = candidate;
                proof {
                    lemma_union_within(self.regions@[i as int], candidate, self.screen);
                }
                candidate = self.regions[i].union(&candidate);
                self.len = self.len - 1;
                self.regions[i] = self.regions[self.len];
                proof {
                    assert(self.live() =~= pre.update(i as int, pre.last()).drop_last());
                    lemma_swap_remove_cover(pre, i as int, self.live(), cand0, candidate);
                    broadcast use vstd::seq_lib::group_to_multiset_ensures, vstd::multiset::group_multiset_axioms;
                    lemma_swap_remove_multiset(pre, i as int, self.live());
                    lemma_chain_grows(clipped, absorbed, pre[i as int]);
                    let ghost prev_absorbed = absorbed;
                    absorbed = absorbed.push(pre[i as int]);
                    assert(absorbed.to_multiset() =~= prev_absorbed.to_multiset().insert(pre[i as int]));
                    assert(self.live().to_multiset().add(absorbed.to_multiset()) =~= orig.to_multiset());
                }
                i = 0;
            } else {
                i = i + 1;
            }
        }

        let ghost kept = self.live();
        proof {
            assert(forall|k: int| 0 <= k < kept.len() ==> !(#[trigger] kept[k]).intersects_spec(candidate));
        }
        if self.len < MAX_REGIONS {
            let ghost pre = self.live();
            self.regions[self.len] = candidate;
            self.len = self.len + 1;
            proof {
                assert(self.live() =~= pre.push(candidate));
                assert forall|x: int, y: int| (covered_by(orig, x, y) || clipped.has(x, y))
                    implies covered_by(self.live(), x, y) by {
                    if candidate.has(x, y) {
                        assert(self.live()[self.len - 1].has(x, y));
                    } else {
                        let j = choose|j: int| 0 <= j < pre.len() && #[trigger] pre[j].has(x, y);
                        assert(self.live()[j].has(x, y));
                    }
                }
            }
        } else {
            // Full: grow whichever region swallows it most cheaply.
            let mut best: usize = 0;
            let mut best_cost: i64 = i64::MAX;
            let mut k: usize = 0;
            while k < self.len
                invariant
                    self.len == MAX_REGIONS,
                    screen_ok(self.screen),
                    candidate.within(self.screen),
                    !candidate.empty(),
                    forall|m: int| 0 <= m < self.len ==> {
                        &&& !(#[trigger] self.regions@[m]).empty()
                        &&& self.regions@[m].within(self.screen)
                    },
                    k <= self.len,
                    best < self.len,
                    kept == self.live(),
                    k == 0 ==> best == 0 && best_cost == i64::MAX,
                    k > 0 ==> best == cheapest(kept, candidate, k as int)
                        && best_cost == growth(kept[best as int], candidate),
                decreases self.len - k,
            {
                let r = self.regions[k];
                proof {
                    lemma_union_within(r, candidate, self.screen);
                    lemma_area_bound(r, self.screen);
                    lemma_area_bound(r.union_spec(candidate), self.screen);
                }
                let cost = r.union(&candidate).area() - r.area();
                proof {
                    assert(r == kept[k as int]);
                    assert(cost < i64::MAX);
                }
                if cost < best_cost {
                    best_cost = cost;
                    best = k;
                }
                k = k + 1;
            }
            let ghost pre = self.live();
            proof { lemma_union_within(self.regions@[best as int], candidate, self.screen); }
            self.regions[best] = self.regions[best].union(&candidate);
            proof {
                assert(self.live() =~= pre.update(best as int, pre[best as int].union_spec(candidate)));
                assert forall|x: int, y: int| (covered_by(orig, x, y) || clipped.has(x, y))
                    implies covered_by(self.live(), x, y) by {
                    lemma_union_covers(pre[best as int], candidate, x, y);
                    if candidate.has(x, y) {
                        assert(self.live()[best as int].has(x, y));
                    } else {
                        let j = choose|j: int| 0 <= j < pre.len() && #[trigger] pre[j].has(x, y);
                        assert(self.live()[j].has(x, y));
                    }
                }
            }
        }

        proof {
            assert(self.live() == placed(kept, candidate));
            assert forall|i: int| 0 <= i < self.live().len() implies
                (#[trigger] self.live()[i]).within(self.screen) by {
                assert(self.live()[i] == self.regions@[i]);
            }
            lemma_sum_area_bound(self.live(), self.screen);
            lemma_area_bound(self.screen, self.screen);
            if orig.len() < MAX_REGIONS
                && forall|k: int| 0 <= k < orig.len() ==> !(#[trigger] orig[k]).intersects_spec(clipped) {
                assert(self.live() == orig.push(clipped));
                assert(self.live().drop_last() =~= orig);
            }
        }
        if self.total_area() * 100 > self.screen.area() * FULL_SCREEN_FRACTION {
            self.full = true;
            self.len = 0;
        }
        proof {
            assert forall|x: int, y: int| rect.has(x, y) && self.screen.has(x, y)
                implies self.covers(x, y) by {
                assert(clipped.has(x, y));
            }
            assert(add_outcome(old(self).live(), rect.intersect_spec(old(self).screen_spec()), old(self).screen_spec(),
                self.is_full(), self.live(), absorbed, kept));
        }
    }

    /// Claims everything `other` claims: the whole screen if `other` is full.
    pub fn add_all(&mut self, other: &Damage)
        requires
            old(self).wf(),
            other.wf(),
        ensures
            final(self).wf(),
            final(self).screen_spec() == old(self).screen_spec(),
            other.is_full() ==> final(self).is_full(),
            forall|x: int, y: int| old(self).covers(x, y) ==> final(self).covers(x, y),
            forall|x: int, y: int| other.covers(x, y) && old(self).screen_spec().has(x, y)
                ==> final(self).covers(x, y),
            !other.is_full() ==> exists|steps: Seq<Damage>| {
                &&& steps.len() == other.live().len() + 1
                &&& steps[0] == *old(self)
                &&& steps.last() == *final(self)
                &&& forall|k: int| 0 <= k < other.live().len() ==> #[trigger] added(steps[k], other.live()[k], steps[k + 1])
            },
    {
        if other.full {
            self.mark_all();
            return;
        }
        let ghost start = *self;
        let ghost mut steps: Seq<Damage> = seq![*self];
        let mut i: usize = 0;
        while i < other.len
            invariant
                steps.len() == i + 1,
                steps[0] == start,
                steps.last() == *self,
                forall|k: int| 0 <= k < i ==> #[trigger] added(steps[k], other.live()[k], steps[k + 1]),
                self.wf(),
                other.wf(),
                !other.full,
                i <= other.len,
                self.screen == start.screen,
                forall|x: int, y: int| start.covers(x, y) ==> self.covers(x, y),
                forall|x: int, y: int| covered_by(other.live().subrange(0, i as int), x, y)
                    && start.screen.has(x, y) ==> self.covers(x, y),
            decreases other.len - i,
        {
            let ghost before = *self;
            self.add(other.regions[i]);
            proof {
                assert(other.live()[i as int] == other.regions@[i as int]);
                assert(added(before, other.regions@[i as int], *self));
                steps = steps.push(*self);
                assert(forall|k: int| 0 <= k < i ==> #[trigger] added(steps[k], other.live()[k], steps[k + 1]));
                assert forall|x: int, y: int| covered_by(other.live().subrange(0, i + 1), x, y)
                    && start.screen.has(x, y) implies self.covers(x, y) by {
                    let s = other.live().subrange(0, i + 1);
                    let j = choose|j: int| 0 <= j < s.len() && #[trigger] s[j].has(x, y);
                    if j < i {
                        assert(other.live().subrange(0, i as int)[j].has(x, y));
                    } else {
                        assert(other.regions@[i as int].has(x, y));
                    }
                }
            }
            i = i + 1;
        }
        proof {
            assert(other.live().subrange(0, other.len as int) =~= other.live());
            assert(steps.len() == other.live().len() + 1);
        }
    }

    /// The regions to repaint, in no particular order: the whole screen when
    /// the frame is full.
    pub fn regions(&self) -> (r: &[Rect])
        requires self.wf(),
        ensures r@ == (if self.is_full() { seq![self.screen_spec()] } else { self.live() }),
    {
        if self.full {
            slice_of_one(&self.screen)
        } else {
            &self.regions[0..self.len]
        }
    }
}

/// What `add` makes of the damage `d` given `rect`, as its contract states
/// it: `e` claims what `d` claimed and `rect` on the screen, a full frame or
/// a rectangle off the screen changes nothing, and otherwise the regions are
/// the outcome of swallowing and placing the clipped rectangle.
pub open spec fn added(d: Damage, rect: Rect, e: Damage) -> bool {
    let clipped = rect.intersect_spec(d.screen_spec());
    &&& e.wf()
    &&& e.screen_spec() == d.screen_spec()
    &&& d.is_full() ==> e == d
    &&& clipped.empty() ==> e == d
    &&& forall|x: int, y: int| d.covers(x, y) ==> e.covers(x, y)
    &&& forall|x: int, y: int| rect.has(x, y) && d.screen_spec().has(x, y) ==> e.covers(x, y)
    &&& !d.is_full() && !clipped.empty() ==> exists|absorbed: Seq<Rect>, kept: Seq<Rect>|
        add_outcome(d.live(), clipped, d.screen_spec(), e.is_full(), e.live(), absorbed, kept)
}

/// Damage never reaches past the screen: every pixel it claims is on it, and
/// every region it hands out lies inside it.
pub proof fn lemma_covers_within_screen(d: Damage, x: int, y: int)
    requires d.wf(),
    ensures
        d.covers(x, y) ==> d.screen_spec().has(x, y),
        forall|i: int| 0 <= i < d.live().len() ==> (#[trigger] d.live()[i]).within(d.screen_spec())
            && !d.live()[i].empty(),
        d.live().len() <= MAX_REGIONS,
{
    if d.covers(x, y) && !d.is_full() {
        let j = choose|j: int| 0 <= j < d.live().len() && #[trigger] d.live()[j].has(x, y);
        assert(d.regions@[j].within(d.screen));
    }
    assert forall|i: int| 0 <= i < d.live().len() implies (#[trigger] d.live()[i]).within(d.screen_spec())
        && !d.live()[i].empty() by {
        assert(d.live()[i] == d.regions@[i]);
    }
}

/// The full-frame threshold as the damage keeps it: a full frame holds no
/// separate regions, and below the threshold the regions add up to at most
/// `FULL_SCREEN_FRACTION` percent of the screen. So damage that is not full
/// never holds the whole of a non-empty screen as one region: claiming the
/// whole screen makes the frame full.
pub proof fn lemma_threshold(d: Damage)
    requires d.wf(),
    ensures
        d.is_full() ==> d.live().len() == 0,
        !d.is_full() ==> sum_area(d.live()) * 100 <= d.screen_spec().area_spec() * FULL_SCREEN_FRACTION,
        !d.is_full() && !d.screen_spec().empty() ==> d.live() != seq![d.screen_spec()],
{
    let s = d.screen_spec();
    if !d.is_full() && !s.empty() && d.live() == seq![s] {
        assert(d.live().drop_last() =~= Seq::<Rect>::empty());
        assert(sum_area(Seq::<Rect>::empty()) == 0);
        assert(d.live().last() == s);
        assert(sum_area(d.live()) == s.area_spec());
        assert(s.area_spec() > 0) by (nonlinear_arith)
            requires s.area_spec() == (s.x1 - s.x0) * (s.y1 - s.y0), s.x1 > s.x0, s.y1 > s.y0;
    }
}

/// No two of `rs` overlap.
pub open spec fn disjoint(rs: Seq<Rect>) -> bool {
    forall|i: int, j: int| 0 <= i < rs.len() && 0 <= j < rs.len() && i != j
        ==> !(#[trigger] rs[i]).intersects_spec(#[trigger] rs[j])
}

/// Regions that do not overlap stay apart: when `add` turns `d` into `e`,
/// and `d` has room for one more region, the regions of `e` do not overlap
/// either (a full frame has none).
pub proof fn lemma_add_keeps_disjoint(d: Damage, rect: Rect, e: Damage)
    requires
        d.wf(),
        added(d, rect, e),
        disjoint(d.live()),
        d.live().len() < MAX_REGIONS,
    ensures
        disjoint(e.live()),
{
    let clipped = rect.intersect_spec(d.screen_spec());
    if d.is_full() || clipped.empty() || e.is_full() {
        lemma_threshold(e);
        return;
    }
    let (absorbed, kept) = choose|absorbed: Seq<Rect>, kept: Seq<Rect>|
        add_outcome(d.live(), clipped, d.screen_spec(), e.is_full(), e.live(), absorbed, kept);
    let old = d.live();
    let h = hull(clipped, absorbed);
    lemma_covers_within_screen(d, 0, 0);
    broadcast use vstd::seq_lib::group_to_multiset_ensures, vstd::multiset::group_multiset_axioms;
    // `old` holds no rectangle twice: a non-empty rectangle overlaps itself.
    assert(old.no_duplicates()) by {
        assert forall|i: int, j: int| 0 <= i < old.len() && 0 <= j < old.len() && i != j
            implies old[i] != old[j] by {
            assert(!old[i].intersects_spec(old[j]));
        }
    }
    old.lemma_multiset_has_no_duplicates();
    assert forall|x: Rect| kept.to_multiset().contains(x) implies kept.to_multiset().count(x) == 1 by {
        assert(old.to_multiset().count(x) == kept.to_multiset().count(x) + absorbed.to_multiset().count(x));
    }
    kept.lemma_multiset_has_no_duplicates_conv();
    assert(kept.len() <= old.len()) by {
        assert(old.to_multiset().len() == kept.to_multiset().len() + absorbed.to_multiset().len());
    }
    assert(e.live() == kept.push(h));
    assert forall|i: int, j: int| 0 <= i < kept.len() && 0 <= j < kept.len() && i != j
        implies !(#[trigger] kept[i]).intersects_spec(#[trigger] kept[j]) by {
        assert(kept.contains(kept[i]));
        assert(kept.contains(kept[j]));
        assert(old.to_multiset().count(kept[i]) >= kept.to_multiset().count(kept[i]));
        assert(old.to_multiset().count(kept[j]) >= kept.to_multiset().count(kept[j]));
        assert(old.contains(kept[i]));
        assert(old.contains(kept[j]));
        let p = choose|p: int| 0 <= p < old.len() && old[p] == kept[i];
        let q = choose|q: int| 0 <= q < old.len() && old[q] == kept[j];
        assert(old[p] != old[q]);
    }
    let l = e.live();
    assert forall|i: int, j: int| 0 <= i < l.len() && 0 <= j < l.len() && i != j
        implies !(#[trigger] l[i]).intersects_spec(#[trigger] l[j]) by {
        if i < kept.len() && j < kept.len() {
            assert(l[i] == kept[i] && l[j] == kept[j]);
        } else if i < kept.len() {
            assert(!kept[i].intersects_spec(h));
        } else {
            assert(!kept[j].intersects_spec(h));
        }
    }
}

} // verus!
