use vstd::prelude::*;
use super::canvas::{Canvas, CANVAS_MAX};
use super::color::Color;
use super::framebuffer::{Framebuffer, opaque, stored};
use super::rect::Rect;

verus! {

/// The longest run of pixels one blur pass takes at a time.
pub const MAX_LINE: usize = 2048;

/// `s[lo] + ... + s[hi - 1]`.
pub open spec fn range_sum(s: Seq<u8>, lo: int, hi: int) -> int
    decreases hi - lo,
{
    if hi <= lo { 0 } else { range_sum(s, lo, hi - 1) + s[hi - 1] }
}

/// The first index of the box around `i`: `radius` back, clamped at 0.
pub open spec fn window_lo(i: int, radius: int) -> int {
    if i - radius < 0 { 0 } else { i - radius }
}

/// One past the last index of the box around `i`: `radius` on, clamped at `n`.
pub open spec fn window_hi(n: int, i: int, radius: int) -> int {
    if i + radius + 1 > n { n } else { i + radius + 1 }
}

/// The mean, rounded down, of the values within `radius` of index `i`; at
/// the ends the box is cut short rather than padded.
pub open spec fn box_avg(s: Seq<u8>, i: int, radius: int) -> u8 {
    let lo = window_lo(i, radius);
    let hi = window_hi(s.len() as int, i, radius);
    (range_sum(s, lo, hi) / (hi - lo)) as u8
}

proof fn lemma_range_sum_bounds(s: Seq<u8>, lo: int, hi: int)
    requires 0 <= lo <= hi <= s.len(),
    ensures 0 <= range_sum(s, lo, hi) <= 255 * (hi - lo),
    decreases hi - lo,
{
    if lo < hi {
        lemma_range_sum_bounds(s, lo, hi - 1);
    }
}

proof fn lemma_range_sum_front(s: Seq<u8>, lo: int, hi: int)
    requires 0 <= lo < hi <= s.len(),
    ensures range_sum(s, lo, hi) == s[lo] + range_sum(s, lo + 1, hi),
    decreases hi - lo,
{
    if lo + 1 < hi {
        lemma_range_sum_front(s, lo, hi - 1);
        assert(range_sum(s, lo + 1, hi) == range_sum(s, lo + 1, hi - 1) + s[hi - 1]);
    } else {
        assert(range_sum(s, lo, lo) == 0);
        assert(range_sum(s, lo + 1, hi) == 0);
    }
}

proof fn lemma_range_sum_flat(s: Seq<u8>, lo: int, hi: int, v: u8)
    requires
        0 <= lo <= hi <= s.len(),
        forall|i: int| 0 <= i < s.len() ==> #[trigger] s[i] == v,
    ensures range_sum(s, lo, hi) == v * (hi - lo),
    decreases hi - lo,
{
    if lo < hi {
        lemma_range_sum_flat(s, lo, hi - 1, v);
        assert(s[hi - 1] == v);
        assert(v * (hi - 1 - lo) + v == v * (hi - lo)) by (nonlinear_arith);
    } else {
        assert(v * (hi - lo) == 0) by (nonlinear_arith) requires hi == lo;
    }
}

/// Blurring a run of one flat value changes nothing: every box averages to
/// that value.
pub proof fn lemma_blur_keeps_flat(s: Seq<u8>, radius: int, v: u8)
    requires
        0 <= radius,
        forall|i: int| 0 <= i < s.len() ==> #[trigger] s[i] == v,
    ensures forall|i: int| 0 <= i < s.len() ==> #[trigger] box_avg(s, i, radius) == v,
{
    assert forall|i: int| 0 <= i < s.len() implies #[trigger] box_avg(s, i, radius) == v by {
        let lo = window_lo(i, radius);
        let hi = window_hi(s.len() as int, i, radius);
        lemma_range_sum_flat(s, lo, hi, v);
        assert((v * (hi - lo)) / (hi - lo) == v) by (nonlinear_arith) requires hi - lo > 0;
    }
}

/// Box-blurs one channel of a run of pixels: each output is the mean of the
/// inputs within `radius` of it, kept as a running sum that gains the value
/// entering the box and loses the one leaving it.
pub fn run_blur(line: &[u8], radius: usize) -> (out: Vec<u8>)
    requires line@.len() <= MAX_LINE,
    ensures
        out@.len() == line@.len(),
        forall|i: int| 0 <= i < line@.len() ==> #[trigger] out@[i] == box_avg(line@, i, radius as int),
{
    let n = line.len();
    let mut out: Vec<u8> = Vec::new();
    if n == 0 {
        return out;
    }
    let r = radius;
    let prefill = if r < n - 1 { r } else { n - 1 };
    let mut sum: u32 = 0;
    let mut count: u32 = 0;
    let mut i: usize = 0;
    while i <= prefill
        invariant
            n == line@.len(), 0 < n <= MAX_LINE,
            prefill < n,
            i <= prefill + 1,
            sum == range_sum(line@, 0, i as int),
            count == i,
        decreases prefill + 1 - i,
    {
        proof { lemma_range_sum_bounds(line@, 0, i as int); }
        sum += line[i] as u32;
        count += 1;
        i += 1;
    }
    let mut i: usize = 0;
    while i < n
        invariant
            n == line@.len(), 0 < n <= MAX_LINE,
            r == radius,
            i <= n,
            out@.len() == i,
            forall|j: int| 0 <= j < i ==> #[trigger] out@[j] == box_avg(line@, j, r as int),
            i < n ==> sum == range_sum(line@, window_lo(i as int, r as int), window_hi(n as int, i as int, r as int)),
            i < n ==> count == window_hi(n as int, i as int, r as int) - window_lo(i as int, r as int),
        decreases n - i,
    {
        let ghost lo = window_lo(i as int, r as int);
        let ghost hi = window_hi(n as int, i as int, r as int);
        proof {
            lemma_range_sum_bounds(line@, lo, hi);
            assert(sum / count <= 255) by (nonlinear_arith)
                requires sum <= 255 * count, count > 0;
        }
        let avg = (sum / count) as u8;
        out.push(avg);
        if i + 1 < n && r < n - i - 1 {
            let add_idx = i + r + 1;
            proof { lemma_range_sum_bounds(line@, lo, hi + 1); }
            sum += line[add_idx] as u32;
            count += 1;
        }
        if i >= r {
            let rem_idx = i - r;
            proof {
                let hi2 = window_hi(n as int, i + 1, r as int);
                lemma_range_sum_front(line@, lo, hi2);
                lemma_range_sum_bounds(line@, lo + 1, hi2);
            }
            sum -= line[rem_idx] as u32;
            count -= 1;
        }
        i += 1;
    }
    out
}

/// Channel `k` of a colour: red, green, then blue.
pub open spec fn channel(c: Color, k: int) -> u8 {
    if k == 0 { c.r } else if k == 1 { c.g } else { c.b }
}

/// Channel `k` of the `n` pixels of `img` from `(x0, y)` rightward.
pub open spec fn row_line(img: spec_fn(int, int) -> Color, x0: int, y: int, n: int, k: int) -> Seq<u8> {
    Seq::new(n as nat, |i: int| channel(img(x0 + i, y), k))
}

/// Channel `k` of the `n` pixels of `img` from `(x, y0)` downward.
pub open spec fn col_line(img: spec_fn(int, int) -> Color, x: int, y0: int, n: int, k: int) -> Seq<u8> {
    Seq::new(n as nat, |i: int| channel(img(x, y0 + i), k))
}

/// The pixels of a canvas as an image.
pub open spec fn image_of<C: Canvas>(fb: C) -> spec_fn(int, int) -> Color {
    |x: int, y: int| fb.pixel(x, y)
}

/// The opaque colour whose channels are box means of three lines at `i`.
pub open spec fn smoothed(lines: spec_fn(int) -> Seq<u8>, i: int, radius: int) -> Color {
    opaque(box_avg(lines(0), i, radius), box_avg(lines(1), i, radius), box_avg(lines(2), i, radius))
}

/// `img` after rows `y0..yk` of the `w` columns from `x0` were each blurred
/// along the row and stored in `mode`, writes landing only inside `clip`.
pub open spec fn h_rows(img: spec_fn(int, int) -> Color, x0: int, w: int, y0: int, yk: int, radius: int, clip: Rect,
    mode: int) -> spec_fn(int, int) -> Color {
    |px: int, py: int| if y0 <= py < yk && x0 <= px < x0 + w && clip.has(px, py) {
        stored(mode, smoothed(|k: int| row_line(img, x0, py, w, k), px - x0, radius))
    } else {
        img(px, py)
    }
}

/// `img` after columns `x0..xk` of the `h` rows from `y0` were each blurred
/// down the column and stored in `mode`, writes landing only inside `clip`.
pub open spec fn v_cols(img: spec_fn(int, int) -> Color, x0: int, xk: int, y0: int, h: int, radius: int, clip: Rect,
    mode: int) -> spec_fn(int, int) -> Color {
    |px: int, py: int| if x0 <= px < xk && y0 <= py < y0 + h && clip.has(px, py) {
        stored(mode, smoothed(|k: int| col_line(img, px, y0, h, k), py - y0, radius))
    } else {
        img(px, py)
    }
}

/// `img` after `passes` rounds of blurring the `w` by `h` region at
/// `(x0, y0)`, each round every row and then every column.
pub open spec fn blur_passes(img: spec_fn(int, int) -> Color, x0: int, y0: int, w: int, h: int, radius: int, clip: Rect,
    mode: int, passes: nat) -> spec_fn(int, int) -> Color
    decreases passes,
{
    if passes == 0 {
        img
    } else {
        let prev = blur_passes(img, x0, y0, w, h, radius, clip, mode, (passes - 1) as nat);
        v_cols(h_rows(prev, x0, w, y0, y0 + h, radius, clip, mode), x0, x0 + w, y0, h, radius, clip, mode)
    }
}

/// Blurs `n` pixels of row `y` from `x_start` along the row.
fn horizontal_pass(fb: &mut Framebuffer, x_start: usize, y: usize, n: usize, radius: usize)
    requires
        old(fb).inv(),
        y < old(fb).height_spec(),
        x_start + n <= old(fb).width_spec(),
        n <= MAX_LINE,
    ensures
        final(fb).inv(),
        super::canvas::same_frame(*old(fb), *final(fb)),
        forall|px: int, py: int| #[trigger] final(fb).pixel(px, py) == h_rows(image_of(*old(fb)), x_start as int, n as int,
            y as int, y + 1, radius as int, old(fb).clip_spec(), old(fb).mode())(px, py),
{
    proof { fb.lemma_inv(); }
    let ghost start = *fb;
    let ghost img = image_of(start);
    let mut lr: Vec<u8> = Vec::new();
    let mut lg: Vec<u8> = Vec::new();
    let mut lb: Vec<u8> = Vec::new();
    let mut i: usize = 0;
    while i < n
        invariant
            *fb == start,
            fb.inv(),
            img == image_of(start),
            y < fb.height_spec(), x_start + n <= fb.width_spec(), fb.width_spec() <= CANVAS_MAX,
            i <= n,
            lr@ =~= row_line(img, x_start as int, y as int, i as int, 0),
            lg@ =~= row_line(img, x_start as int, y as int, i as int, 1),
            lb@ =~= row_line(img, x_start as int, y as int, i as int, 2),
        decreases n - i,
    {
        let c = fb.read_pixel(x_start + i, y);
        proof { assert(c == img(x_start + i, y as int)); }
        lr.push(c.r);
        lg.push(c.g);
        lb.push(c.b);
        i += 1;
    }
    let or = run_blur(lr.as_slice(), radius);
    let og = run_blur(lg.as_slice(), radius);
    let ob = run_blur(lb.as_slice(), radius);
    let ghost lines = |k: int| row_line(img, x_start as int, y as int, n as int, k);
    let mut i: usize = 0;
    while i < n
        invariant
            fb.inv(),
            super::canvas::same_frame(start, *fb),
            y < fb.height_spec(), x_start + n <= fb.width_spec(), fb.width_spec() <= CANVAS_MAX,
            i <= n,
            or@.len() == n, og@.len() == n, ob@.len() == n,
            forall|j: int| 0 <= j < n ==> #[trigger] or@[j] == box_avg(lines(0), j, radius as int),
            forall|j: int| 0 <= j < n ==> #[trigger] og@[j] == box_avg(lines(1), j, radius as int),
            forall|j: int| 0 <= j < n ==> #[trigger] ob@[j] == box_avg(lines(2), j, radius as int),
            forall|px: int, py: int| #[trigger] fb.pixel(px, py) == if py == y && x_start <= px < x_start + i
                && start.clip_spec().has(px, py) {
                stored(start.mode(), smoothed(lines, px - x_start, radius as int))
            } else {
                start.pixel(px, py)
            },
        decreases n - i,
    {
        fb.put_pixel(x_start + i, y, Color::rgb(or[i], og[i], ob[i]));
        i += 1;
    }
}

/// Blurs `n` pixels of column `x` from `y_start` down the column.
fn vertical_pass(fb: &mut Framebuffer, x: usize, y_start: usize, n: usize, radius: usize)
    requires
        old(fb).inv(),
        x < old(fb).width_spec(),
        y_start + n <= old(fb).height_spec(),
        n <= MAX_LINE,
    ensures
        final(fb).inv(),
        super::canvas::same_frame(*old(fb), *final(fb)),
        forall|px: int, py: int| #[trigger] final(fb).pixel(px, py) == v_cols(image_of(*old(fb)), x as int, x + 1,
            y_start as int, n as int, radius as int, old(fb).clip_spec(), old(fb).mode())(px, py),
{
    proof { fb.lemma_inv(); }
    let ghost start = *fb;
    let ghost img = image_of(start);
    let mut lr: Vec<u8> = Vec::new();
    let mut lg: Vec<u8> = Vec::new();
    let mut lb: Vec<u8> = Vec::new();
    let mut i: usize = 0;
    while i < n
        invariant
            *fb == start,
            fb.inv(),
            img == image_of(start),
            x < fb.width_spec(), y_start + n <= fb.height_spec(), fb.height_spec() <= CANVAS_MAX,
            i <= n,
            lr@ =~= col_line(img, x as int, y_start as int, i as int, 0),
            lg@ =~= col_line(img, x as int, y_start as int, i as int, 1),
            lb@ =~= col_line(img, x as int, y_start as int, i as int, 2),
        decreases n - i,
    {
        let c = fb.read_pixel(x, y_start + i);
        proof { assert(c == img(x as int, y_start + i)); }
        lr.push(c.r);
        lg.push(c.g);
        lb.push(c.b);
        i += 1;
    }
    let or = run_blur(lr.as_slice(), radius);
    let og = run_blur(lg.as_slice(), radius);
    let ob = run_blur(lb.as_slice(), radius);
    let ghost lines = |k: int| col_line(img, x as int, y_start as int, n as int, k);
    let mut i: usize = 0;
    while i < n
        invariant
            fb.inv(),
            super::canvas::same_frame(start, *fb),
            x < fb.width_spec(), y_start + n <= fb.height_spec(), fb.height_spec() <= CANVAS_MAX,
            i <= n,
            or@.len() == n, og@.len() == n, ob@.len() == n,
            forall|j: int| 0 <= j < n ==> #[trigger] or@[j] == box_avg(lines(0), j, radius as int),
            forall|j: int| 0 <= j < n ==> #[trigger] og@[j] == box_avg(lines(1), j, radius as int),
            forall|j: int| 0 <= j < n ==> #[trigger] ob@[j] == box_avg(lines(2), j, radius as int),
            forall|px: int, py: int| #[trigger] fb.pixel(px, py) == if px == x && y_start <= py < y_start + i
                && start.clip_spec().has(px, py) {
                stored(start.mode(), smoothed(lines, py - y_start, radius as int))
            } else {
                start.pixel(px, py)
            },
        decreases n - i,
    {
        fb.put_pixel(x, y_start + i, Color::rgb(or[i], og[i], ob[i]));
        i += 1;
    }
}

/// The first column `box_blur_region` touches.
pub open spec fn region_start(x: int) -> int {
    if x < 0 { 0 } else { x }
}

/// One past the last column (or row) `box_blur_region` touches on a canvas
/// `size` wide (or high).
pub open spec fn region_end(x: int, w: int, size: int) -> int {
    let e = if x + w < 0 { 0 } else { x + w };
    if e < size { e } else { size }
}

/// Whether `box_blur_region` does anything: a radius, a pass, a non-empty
/// region on the canvas, and one whose sides fit a scratch line.
pub open spec fn blur_applies(x: int, y: int, w: int, h: int, radius: int, passes: int, width: int, height: int) -> bool {
    &&& radius != 0 && passes != 0 && w > 0 && h > 0
    &&& region_start(x) < region_end(x, w, width)
    &&& region_start(y) < region_end(y, h, height)
    &&& region_end(x, w, width) - region_start(x) <= MAX_LINE
    &&& region_end(y, h, height) - region_start(y) <= MAX_LINE
}

/// Blurs the part of the `w` by `h` region at `(x, y)` that lies on the
/// canvas with `passes` rounds of a box blur of `radius`, each round along
/// every row and then down every column. Regions wider or taller than a
/// scratch line are left alone.
pub fn box_blur_region(fb: &mut Framebuffer, x: i32, y: i32, w: i32, h: i32, radius: usize, passes: usize)
    requires
        old(fb).inv(),
        i32::MIN <= x + w <= i32::MAX,
        i32::MIN <= y + h <= i32::MAX,
    ensures
        final(fb).inv(),
        super::canvas::same_frame(*old(fb), *final(fb)),
        forall|px: int, py: int| #[trigger] final(fb).pixel(px, py) == if blur_applies(x as int, y as int, w as int, h as int,
            radius as int, passes as int, old(fb).width_spec(), old(fb).height_spec()) {
            blur_passes(image_of(*old(fb)), region_start(x as int), region_start(y as int),
                region_end(x as int, w as int, old(fb).width_spec()) - region_start(x as int),
                region_end(y as int, h as int, old(fb).height_spec()) - region_start(y as int),
                radius as int, old(fb).clip_spec(), old(fb).mode(), passes as nat)(px, py)
        } else {
            old(fb).pixel(px, py)
        },
{
    if radius == 0 || passes == 0 || w <= 0 || h <= 0 {
        return;
    }
    proof { fb.lemma_inv(); }
    let x_start = if x < 0 { 0 } else { x as usize };
    let y_start = if y < 0 { 0 } else { y as usize };
    let xe = if x + w < 0 { 0 } else { (x + w) as usize };
    let ye = if y + h < 0 { 0 } else { (y + h) as usize };
    let x_end = if xe < fb.width() { xe } else { fb.width() };
    let y_end = if ye < fb.height() { ye } else { fb.height() };
    if x_end <= x_start || y_end <= y_start {
        return;
    }
    let region_w = x_end - x_start;
    let region_h = y_end - y_start;
    if region_w > MAX_LINE || region_h > MAX_LINE {
        return;
    }
    let ghost start = *fb;
    let ghost img0 = image_of(start);
    let ghost clip = start.clip_spec();
    let ghost mode = start.mode();
    let mut p: usize = 0;
    while p < passes
        invariant
            fb.inv(),
            super::canvas::same_frame(start, *fb),
            clip == start.clip_spec(), mode == start.mode(),
            x_start + region_w == x_end, y_start + region_h == y_end,
            x_end <= fb.width_spec(), y_end <= fb.height_spec(),
            region_w <= MAX_LINE, region_h <= MAX_LINE,
            p <= passes,
            forall|px: int, py: int| #[trigger] fb.pixel(px, py) == blur_passes(img0, x_start as int, y_start as int,
                region_w as int, region_h as int, radius as int, clip, mode, p as nat)(px, py),
        decreases passes - p,
    {
        let ghost prev = blur_passes(img0, x_start as int, y_start as int, region_w as int, region_h as int, radius as int,
            clip, mode, p as nat);
        let mut ry = y_start;
        while ry < y_end
            invariant
                fb.inv(),
                super::canvas::same_frame(start, *fb),
                clip == start.clip_spec(), mode == start.mode(),
                x_start + region_w == x_end, y_start + region_h == y_end,
                x_end <= fb.width_spec(), y_end <= fb.height_spec(),
                region_w <= MAX_LINE, region_h <= MAX_LINE,
                y_start <= ry <= y_end,
                forall|px: int, py: int| #[trigger] fb.pixel(px, py) == h_rows(prev, x_start as int, region_w as int,
                    y_start as int, ry as int, radius as int, clip, mode)(px, py),
            decreases y_end - ry,
        {
            let ghost before = *fb;
            horizontal_pass(fb, x_start, ry, region_w, radius);
            proof {
                assert forall|k: int| #[trigger] row_line(image_of(before), x_start as int, ry as int, region_w as int, k)
                    == row_line(prev, x_start as int, ry as int, region_w as int, k) by {
                    assert(row_line(image_of(before), x_start as int, ry as int, region_w as int, k)
                        =~= row_line(prev, x_start as int, ry as int, region_w as int, k));
                }
                assert forall|px: int, py: int| #[trigger] fb.pixel(px, py) == h_rows(prev, x_start as int, region_w as int,
                    y_start as int, ry + 1, radius as int, clip, mode)(px, py) by {
                    if py == ry {
                        assert((|k: int| row_line(image_of(before), x_start as int, ry as int, region_w as int, k))
                            =~= (|k: int| row_line(prev, x_start as int, ry as int, region_w as int, k)));
                    }
                }
            }
            ry += 1;
        }
        let ghost hp = h_rows(prev, x_start as int, region_w as int, y_start as int, y_end as int, radius as int, clip, mode);
        let mut rx = x_start;
        while rx < x_end
            invariant
                fb.inv(),
                super::canvas::same_frame(start, *fb),
                clip == start.clip_spec(), mode == start.mode(),
                x_start + region_w == x_end, y_start + region_h == y_end,
                x_end <= fb.width_spec(), y_end <= fb.height_spec(),
                region_w <= MAX_LINE, region_h <= MAX_LINE,
                x_start <= rx <= x_end,
                forall|px: int, py: int| #[trigger] fb.pixel(px, py) == v_cols(hp, x_start as int, rx as int,
                    y_start as int, region_h as int, radius as int, clip, mode)(px, py),
            decreases x_end - rx,
        {
            let ghost before = *fb;
            vertical_pass(fb, rx, y_start, region_h, radius);
            proof {
                assert forall|k: int| #[trigger] col_line(image_of(before), rx as int, y_start as int, region_h as int, k)
                    == col_line(hp, rx as int, y_start as int, region_h as int, k) by {
                    assert(col_line(image_of(before), rx as int, y_start as int, region_h as int, k)
                        =~= col_line(hp, rx as int, y_start as int, region_h as int, k));
                }
                assert forall|px: int, py: int| #[trigger] fb.pixel(px, py) == v_cols(hp, x_start as int, rx + 1,
                    y_start as int, region_h as int, radius as int, clip, mode)(px, py) by {
                    if px == rx {
                        assert((|k: int| col_line(image_of(before), rx as int, y_start as int, region_h as int, k))
                            =~= (|k: int| col_line(hp, rx as int, y_start as int, region_h as int, k)));
                    }
                }
            }
            rx += 1;
        }
        p += 1;
    }
}

} // verus!
