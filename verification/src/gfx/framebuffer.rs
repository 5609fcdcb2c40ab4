use vstd::prelude::*;
use super::canvas::{Canvas, CANVAS_MAX};
use super::color::{Color, lemma_mul255_bounded, mul255, mul255_spec};
use super::rect::{Rect, max_i, min_i};

verus! {

/// How the bytes of one pixel hold its colour.
#[derive(Copy, Clone, PartialEq, Eq, Debug, Structural)]
pub enum PixelFormat {
    /// Red, green, blue, one byte each, in that order.
    Rgb,
    /// Blue, green, red.
    Bgr,
    /// A single grey level.
    U8,
    /// A layout the firmware could only describe by bit positions.
    Unknown { red_position: u8, green_position: u8, blue_position: u8 },
}

/// The shape of a linear framebuffer as the firmware reports it.
#[derive(Copy, Clone, PartialEq, Eq, Debug, Structural)]
pub struct FrameBufferInfo {
    pub byte_len: usize,
    pub width: usize,
    pub height: usize,
    pub pixel_format: PixelFormat,
    pub bytes_per_pixel: usize,
    /// Pixels per row in memory, at least `width`.
    pub stride: usize,
}

/// The grey level of a colour: 30% red, 59% green, 11% blue.
pub open spec fn luma(c: Color) -> u8 {
    ((c.r as int * 30 + c.g as int * 59 + c.b as int * 11) / 100) as u8
}

/// An opaque colour from three channels.
pub open spec fn opaque(r: u8, g: u8, b: u8) -> Color {
    Color { r, g, b, a: 255 }
}

/// Whether `bpp` bytes are enough to hold a pixel of format `f`. Unknown
/// formats get by with any width: they are written only when three bytes fit.
pub open spec fn format_fits(f: PixelFormat, bpp: int) -> bool {
    match f {
        PixelFormat::Rgb | PixelFormat::Bgr => bpp >= 3,
        PixelFormat::U8 => bpp >= 1,
        PixelFormat::Unknown { .. } => true,
    }
}

/// The way a framebuffer of format `f` with `bpp` bytes per pixel stores
/// colours: 0 in RGB order, 1 in BGR order, 2 as grey, 3 guessed as BGR, and
/// 4 not at all (an unknown format too narrow to guess at).
pub open spec fn format_mode(f: PixelFormat, bpp: int) -> int {
    match f {
        PixelFormat::Rgb => 0,
        PixelFormat::Bgr => 1,
        PixelFormat::U8 => 2,
        PixelFormat::Unknown { .. } => if bpp >= 3 { 3 } else { 4 },
    }
}

/// What a colour written in `mode` reads back as: alpha is dropped, grey
/// keeps the luma, and a pixel that cannot be stored reads as black.
pub open spec fn stored(mode: int, c: Color) -> Color {
    if mode == 2 {
        opaque(luma(c), luma(c), luma(c))
    } else if mode == 4 {
        opaque(0, 0, 0)
    } else {
        opaque(c.r, c.g, c.b)
    }
}

/// The colour held by the bytes `slot` of one pixel in format `f`.
pub open spec fn decode_spec(slot: Seq<u8>, f: PixelFormat) -> Color {
    match f {
        PixelFormat::Rgb => opaque(slot[0], slot[1], slot[2]),
        PixelFormat::Bgr => opaque(slot[2], slot[1], slot[0]),
        PixelFormat::U8 => opaque(slot[0], slot[0], slot[0]),
        PixelFormat::Unknown { .. } => if slot.len() >= 3 { opaque(slot[2], slot[1], slot[0]) } else { opaque(0, 0, 0) },
    }
}

/// The bytes `slot` of one pixel after `c` is written into them in format `f`.
pub open spec fn encode_spec(slot: Seq<u8>, f: PixelFormat, c: Color) -> Seq<u8> {
    match f {
        PixelFormat::Rgb => slot.update(0, c.r).update(1, c.g).update(2, c.b),
        PixelFormat::Bgr => slot.update(0, c.b).update(1, c.g).update(2, c.r),
        PixelFormat::U8 => slot.update(0, luma(c)),
        PixelFormat::Unknown { .. } => if slot.len() >= 3 {
            slot.update(0, c.b).update(1, c.g).update(2, c.r)
        } else {
            slot
        },
    }
}

/// Writing a colour and reading it back gives what the format can store.
pub proof fn lemma_encode_decode(slot: Seq<u8>, f: PixelFormat, c: Color)
    requires format_fits(f, slot.len() as int),
    ensures
        encode_spec(slot, f, c).len() == slot.len(),
        decode_spec(encode_spec(slot, f, c), f) == stored(format_mode(f, slot.len() as int), c),
{
}

/// Where pixel `(x, y)` starts in a buffer with rows of `stride_bytes`.
pub open spec fn slot_start(x: int, y: int, stride_bytes: int, bpp: int) -> int {
    y * stride_bytes + x * bpp
}

/// The colour of pixel `(x, y)` in the bytes `buf` of a framebuffer, black
/// outside its `width` by `height` pixels.
pub open spec fn buffer_pixel(buf: Seq<u8>, x: int, y: int, width: int, height: int, stride_bytes: int, bpp: int,
    f: PixelFormat) -> Color {
    if 0 <= x < width && 0 <= y < height {
        let off = slot_start(x, y, stride_bytes, bpp);
        decode_spec(buf.subrange(off, off + bpp), f)
    } else {
        opaque(0, 0, 0)
    }
}

/// The rows a buffer of `len` bytes can back, `stride_bytes` apart.
pub open spec fn rows_backed(len: int, stride_bytes: int) -> int {
    if stride_bytes == 0 { 0 } else { len / stride_bytes }
}

/// The slot of an in-range pixel lies inside the buffer.
proof fn lemma_slot_inside(x: int, y: int, width: int, height: int, stride_bytes: int, bpp: int, len: int)
    requires
        0 <= x < width, 0 <= y < height, 0 <= bpp,
        width * bpp <= stride_bytes,
        height * stride_bytes <= len,
    ensures
        0 <= y * stride_bytes,
        0 <= x * bpp,
        0 <= slot_start(x, y, stride_bytes, bpp),
        slot_start(x, y, stride_bytes, bpp) + bpp <= (y + 1) * stride_bytes,
        y * stride_bytes + width * bpp <= (y + 1) * stride_bytes,
        (y + 1) * stride_bytes <= len,
{
    assert(0 <= y * stride_bytes) by (nonlinear_arith) requires 0 <= y, 0 <= bpp, 0 <= width * bpp <= stride_bytes;
    assert(0 <= x * bpp) by (nonlinear_arith) requires 0 <= x, 0 <= bpp;
    assert(x * bpp + bpp <= width * bpp) by (nonlinear_arith) requires x < width, 0 <= bpp;
    assert((y + 1) * stride_bytes == y * stride_bytes + stride_bytes) by (nonlinear_arith);
    assert((y + 1) * stride_bytes <= height * stride_bytes) by (nonlinear_arith)
        requires y + 1 <= height, 0 <= bpp, 0 <= width * bpp <= stride_bytes;
}

/// Row `y` of an in-range pixel lies inside the buffer.
proof fn lemma_row_inside(y: int, width: int, height: int, stride_bytes: int, bpp: int, len: int)
    requires
        0 <= y < height, 0 <= bpp, 0 <= width,
        width * bpp <= stride_bytes,
        height * stride_bytes <= len,
    ensures
        0 <= y * stride_bytes,
        0 <= width * bpp,
        y * stride_bytes + width * bpp <= len,
{
    assert(0 <= width * bpp) by (nonlinear_arith) requires 0 <= width, 0 <= bpp;
    assert(0 <= y * stride_bytes) by (nonlinear_arith) requires 0 <= y, 0 <= stride_bytes;
    assert((y + 1) * stride_bytes == y * stride_bytes + stride_bytes) by (nonlinear_arith);
    assert((y + 1) * stride_bytes <= height * stride_bytes) by (nonlinear_arith)
        requires y + 1 <= height, 0 <= stride_bytes;
}

/// The slots of two different in-range pixels do not overlap.
proof fn lemma_slots_apart(x: int, y: int, qx: int, qy: int, width: int, stride_bytes: int, bpp: int)
    requires
        0 <= x < width, 0 <= y, 0 <= qx < width, 0 <= qy, 0 <= bpp,
        width * bpp <= stride_bytes,
        x != qx || y != qy,
    ensures
        slot_start(x, y, stride_bytes, bpp) + bpp <= slot_start(qx, qy, stride_bytes, bpp)
        || slot_start(qx, qy, stride_bytes, bpp) + bpp <= slot_start(x, y, stride_bytes, bpp),
{
    assert(x * bpp + bpp <= width * bpp) by (nonlinear_arith) requires x < width, 0 <= bpp;
    assert(qx * bpp + bpp <= width * bpp) by (nonlinear_arith) requires qx < width, 0 <= bpp;
    assert(0 <= x * bpp) by (nonlinear_arith) requires 0 <= x, 0 <= bpp;
    assert(0 <= qx * bpp) by (nonlinear_arith) requires 0 <= qx, 0 <= bpp;
    if y < qy {
        assert(y * stride_bytes + stride_bytes <= qy * stride_bytes) by (nonlinear_arith)
            requires y < qy, 0 <= stride_bytes;
    } else if qy < y {
        assert(qy * stride_bytes + stride_bytes <= y * stride_bytes) by (nonlinear_arith)
            requires qy < y, 0 <= stride_bytes;
    } else if x < qx {
        assert(x * bpp + bpp <= qx * bpp) by (nonlinear_arith) requires x < qx, 0 <= bpp;
    } else {
        assert(qx * bpp + bpp <= x * bpp) by (nonlinear_arith) requires qx < x, 0 <= bpp;
    }
}

/// Reads the colour held by one pixel's bytes.
fn decode(slot: &[u8], fmt: PixelFormat) -> (c: Color)
    requires format_fits(fmt, slot@.len() as int),
    ensures c == decode_spec(slot@, fmt),
{
    match fmt {
        PixelFormat::Rgb => Color::rgb(slot[0], slot[1], slot[2]),
        PixelFormat::Bgr => Color::rgb(slot[2], slot[1], slot[0]),
        PixelFormat::U8 => Color::rgb(slot[0], slot[0], slot[0]),
        PixelFormat::Unknown { .. } => {
            if slot.len() >= 3 {
                Color::rgb(slot[2], slot[1], slot[0])
            } else {
                Color::rgb(0, 0, 0)
            }
        },
    }
}

/// Writes `c` into the `bpp` bytes of `buf` from `off` on, in format `fmt`.
/// Unknown formats are guessed at as BGR, which is what every device met so
/// far uses, but never past the end of the slot.
fn encode(buf: &mut [u8], off: usize, bpp: usize, fmt: PixelFormat, c: Color)
    requires
        off + bpp <= old(buf)@.len(),
        format_fits(fmt, bpp as int),
    ensures
        final(buf)@.len() == old(buf)@.len(),
        final(buf)@.subrange(off as int, off + bpp) == encode_spec(old(buf)@.subrange(off as int, off + bpp), fmt, c),
        forall|i: int| 0 <= i < old(buf)@.len() && !(off <= i < off + bpp) ==> #[trigger] final(buf)@[i] == old(buf)@[i],
{
    let ghost slot = buf@.subrange(off as int, off + bpp);
    match fmt {
        PixelFormat::Rgb => {
            buf[off] = c.r;
            buf[off + 1] = c.g;
            buf[off + 2] = c.b;
        },
        PixelFormat::Bgr => {
            buf[off] = c.b;
            buf[off + 1] = c.g;
            buf[off + 2] = c.r;
        },
        PixelFormat::U8 => {
            let grey = (c.r as u16 * 30 + c.g as u16 * 59 + c.b as u16 * 11) / 100;
            buf[off] = grey as u8;
        },
        PixelFormat::Unknown { .. } => {
            if bpp >= 3 {
                buf[off] = c.b;
                buf[off + 1] = c.g;
                buf[off + 2] = c.r;
            }
        },
    }
    assert(buf@.subrange(off as int, off + bpp) =~= encode_spec(slot, fmt, c));
}

/// After the bytes of pixel `(x, y)` alone changed, every other pixel reads
/// as before and `(x, y)` reads as its new bytes say.
proof fn lemma_one_slot_written(before: Seq<u8>, after: Seq<u8>, x: int, y: int, width: int, height: int,
    stride_bytes: int, bpp: int, f: PixelFormat)
    requires
        0 <= x < width, 0 <= y < height, 0 <= bpp,
        width * bpp <= stride_bytes,
        height * stride_bytes <= before.len(),
        after.len() == before.len(),
        forall|i: int| 0 <= i < before.len() && !(slot_start(x, y, stride_bytes, bpp) <= i < slot_start(x, y, stride_bytes, bpp) + bpp)
            ==> #[trigger] after[i] == before[i],
    ensures
        forall|qx: int, qy: int| #[trigger] buffer_pixel(after, qx, qy, width, height, stride_bytes, bpp, f)
            == if qx == x && qy == y {
                decode_spec(after.subrange(slot_start(x, y, stride_bytes, bpp), slot_start(x, y, stride_bytes, bpp) + bpp), f)
            } else {
                buffer_pixel(before, qx, qy, width, height, stride_bytes, bpp, f)
            },
{
    lemma_slot_inside(x, y, width, height, stride_bytes, bpp, before.len() as int);
    assert forall|qx: int, qy: int| #[trigger] buffer_pixel(after, qx, qy, width, height, stride_bytes, bpp, f)
        == if qx == x && qy == y {
            decode_spec(after.subrange(slot_start(x, y, stride_bytes, bpp), slot_start(x, y, stride_bytes, bpp) + bpp), f)
        } else {
            buffer_pixel(before, qx, qy, width, height, stride_bytes, bpp, f)
        } by {
        if (qx != x || qy != y) && 0 <= qx < width && 0 <= qy < height {
            lemma_slot_inside(qx, qy, width, height, stride_bytes, bpp, before.len() as int);
            lemma_slots_apart(x, y, qx, qy, width, stride_bytes, bpp);
            let q = slot_start(qx, qy, stride_bytes, bpp);
            assert(after.subrange(q, q + bpp) =~= before.subrange(q, q + bpp));
        }
    }
}

/// A linear framebuffer: rows of pixels `stride_bytes` apart in a byte
/// buffer, each pixel `bpp` bytes in the firmware's format.
pub struct Framebuffer<'a> {
    buf: &'a mut [u8],
    width: usize,
    height: usize,
    clip: Rect,
    stride_bytes: usize,
    bpp: usize,
    format: PixelFormat,
}

impl<'a> Framebuffer<'a> {
    /// The buffer's bytes.
    pub closed spec fn bytes(&self) -> Seq<u8> {
        self.buf@
    }

    pub closed spec fn format_spec(&self) -> PixelFormat {
        self.format
    }

    pub closed spec fn bpp_spec(&self) -> int {
        self.bpp as int
    }

    /// The distance between the starts of two rows, in bytes.
    pub closed spec fn stride_spec(&self) -> int {
        self.stride_bytes as int
    }

    /// Wraps `buf` as a framebuffer of the shape `info` gives, showing no
    /// more rows than the buffer can back.
    pub fn from_raw(buf: &'a mut [u8], info: FrameBufferInfo) -> (fb: Framebuffer<'a>)
        requires
            info.stride * info.bytes_per_pixel <= usize::MAX,
            info.width <= info.stride,
            info.width <= CANVAS_MAX,
            info.height <= CANVAS_MAX,
            format_fits(info.pixel_format, info.bytes_per_pixel as int),
        ensures
            fb.inv(),
            fb.bytes() == old(buf)@,
            fb.format_spec() == info.pixel_format,
            fb.bpp_spec() == info.bytes_per_pixel,
            fb.stride_spec() == info.stride * info.bytes_per_pixel,
            fb.width_spec() == info.width,
            fb.height_spec() == min_i(info.height as int, rows_backed(old(buf)@.len() as int, info.stride * info.bytes_per_pixel)),
            fb.clip_spec() == (Rect { x0: 0, y0: 0, x1: info.width as i32, y1: fb.height_spec() as i32 }),
            fb.mode() == format_mode(info.pixel_format, info.bytes_per_pixel as int),
            forall|x: int, y: int| #[trigger] fb.pixel(x, y) == buffer_pixel(old(buf)@, x, y, info.width as int,
                fb.height_spec(), info.stride * info.bytes_per_pixel, info.bytes_per_pixel as int, info.pixel_format),
    {
        let stride_bytes = info.stride * info.bytes_per_pixel;
        let len = buf.len();
        let max_rows = if stride_bytes == 0 { 0 } else { len / stride_bytes };
        let width = info.width;
        let height = if info.height <= max_rows { info.height } else { max_rows };
        proof {
            let (w, s, b) = (width as int, info.stride as int, info.bytes_per_pixel as int);
            assert(w * b <= s * b) by (nonlinear_arith) requires 0 <= w <= s, 0 <= b;
            if stride_bytes != 0 {
                let (l, sb, m, h) = (buf@.len() as int, stride_bytes as int, max_rows as int, height as int);
                assert(h * sb <= l) by (nonlinear_arith) requires m == l / sb, 0 < sb, 0 <= h <= m, 0 <= l;
            }
        }
        Framebuffer {
            buf,
            width,
            height,
            clip: Rect::new(0, 0, width as i32, height as i32),
            stride_bytes,
            bpp: info.bytes_per_pixel,
            format: info.pixel_format,
        }
    }

    /// Confines every later write to `rect`, intersected with the buffer.
    pub fn set_clip(&mut self, rect: Rect)
        requires old(self).inv(),
        ensures
            final(self).inv(),
            final(self).bytes() == old(self).bytes(),
            final(self).format_spec() == old(self).format_spec(),
            final(self).bpp_spec() == old(self).bpp_spec(),
            final(self).stride_spec() == old(self).stride_spec(),
            final(self).width_spec() == old(self).width_spec(),
            final(self).height_spec() == old(self).height_spec(),
            final(self).mode() == old(self).mode(),
            final(self).clip_spec() == rect.intersect_spec(Rect { x0: 0, y0: 0, x1: old(self).width_spec() as i32, y1: old(self).height_spec() as i32 }),
            forall|x: int, y: int| #[trigger] final(self).pixel(x, y) == old(self).pixel(x, y),
    {
        self.clip = rect.intersect(&Rect::new(0, 0, self.width as i32, self.height as i32));
    }

    /// Writes `c` into every pixel of the clip.
    pub fn clear(&mut self, c: Color)
        requires old(self).inv(),
        ensures
            final(self).inv(),
            final(self).width_spec() == old(self).width_spec(),
            final(self).height_spec() == old(self).height_spec(),
            final(self).clip_spec() == old(self).clip_spec(),
            final(self).mode() == old(self).mode(),
            forall|x: int, y: int| #[trigger] final(self).pixel(x, y) == if old(self).clip_spec().has(x, y) {
                stored(old(self).mode(), c)
            } else {
                old(self).pixel(x, y)
            },
    {
        let ghost start = *self;
        let mut y: usize = 0;
        while y < self.height
            invariant
                self.inv(),
                self.width == start.width, self.height == start.height, self.clip == start.clip,
                self.mode() == start.mode(),
                y <= self.height,
                forall|qx: int, qy: int| #[trigger] self.pixel(qx, qy) == if qy < y && start.clip.has(qx, qy) {
                    stored(start.mode(), c)
                } else {
                    start.pixel(qx, qy)
                },
            decreases start.height - y,
        {
            let mut x: usize = 0;
            while x < self.width
                invariant
                    self.inv(),
                    self.width == start.width, self.height == start.height, self.clip == start.clip,
                    self.mode() == start.mode(),
                    y < self.height,
                    x <= self.width,
                    forall|qx: int, qy: int| #[trigger] self.pixel(qx, qy) == if (qy < y || (qy == y && qx < x)) && start.clip.has(qx, qy) {
                        stored(start.mode(), c)
                    } else {
                        start.pixel(qx, qy)
                    },
                decreases start.width - x,
            {
                self.put_pixel(x, y, c);
                x += 1;
            }
            y += 1;
        }
    }

    /// The bytes of the `width` pixels of row `y`, to write into.
    pub fn row_mut(&mut self, y: usize) -> (r: &mut [u8])
        requires
            old(self).inv(),
            y < old(self).height_spec(),
        ensures
            r@ == old(self).bytes().subrange(y * old(self).stride_spec(), y * old(self).stride_spec() + old(self).width_spec() * old(self).bpp_spec()),
            final(r)@.len() == r@.len() ==> final(self).bytes() == old(self).bytes().subrange(0, y * old(self).stride_spec()) + final(r)@
                + old(self).bytes().subrange(y * old(self).stride_spec() + old(self).width_spec() * old(self).bpp_spec(), old(self).bytes().len() as int),
            final(r)@.len() == r@.len() ==> final(self).inv(),
            final(self).format_spec() == old(self).format_spec(),
            final(self).bpp_spec() == old(self).bpp_spec(),
            final(self).stride_spec() == old(self).stride_spec(),
            final(self).width_spec() == old(self).width_spec(),
            final(self).height_spec() == old(self).height_spec(),
            final(self).clip_spec() == old(self).clip_spec(),
    {
        proof {
            lemma_row_inside(y as int, self.width as int, self.height as int, self.stride_bytes as int, self.bpp as int, self.buf@.len() as int);
        }
        let off = y * self.stride_bytes;
        let n = self.width * self.bpp;
        let (_, rest) = self.buf.split_at_mut(off);
        let (row, _) = rest.split_at_mut(n);
        row
    }

    /// The bytes per pixel.
    pub fn bytes_per_pixel(&self) -> (n: usize)
        ensures n == self.bpp_spec(),
    {
        self.bpp
    }

    pub fn format(&self) -> (f: PixelFormat)
        ensures f == self.format_spec(),
    {
        self.format
    }

    /// The bytes of the `width` pixels of row `y`.
    pub fn row(&self, y: usize) -> (r: &[u8])
        requires
            self.inv(),
            y < self.height_spec(),
        ensures
            r@ == self.bytes().subrange(y * self.stride_spec(), y * self.stride_spec() + self.width_spec() * self.bpp_spec()),
    {
        proof {
            lemma_row_inside(y as int, self.width as int, self.height as int, self.stride_bytes as int, self.bpp as int, self.buf@.len() as int);
        }
        let off = y * self.stride_bytes;
        &self.buf[off..off + self.width * self.bpp]
    }
}

impl<'a> Canvas for Framebuffer<'a> {
    closed spec fn inv(&self) -> bool {
        &&& self.width <= CANVAS_MAX
        &&& self.height <= CANVAS_MAX
        &&& self.width * self.bpp <= self.stride_bytes
        &&& self.height * self.stride_bytes <= self.buf@.len()
        &&& self.buf@.len() <= usize::MAX
        &&& format_fits(self.format, self.bpp as int)
        &&& 0 <= self.clip.x0 && 0 <= self.clip.y0
        &&& self.clip.x1 <= self.width && self.clip.y1 <= self.height
    }

    closed spec fn width_spec(&self) -> int {
        self.width as int
    }

    closed spec fn height_spec(&self) -> int {
        self.height as int
    }

    closed spec fn clip_spec(&self) -> Rect {
        self.clip
    }

    closed spec fn pixel(&self, x: int, y: int) -> Color {
        buffer_pixel(self.buf@, x, y, self.width as int, self.height as int, self.stride_bytes as int, self.bpp as int, self.format)
    }

    closed spec fn mode(&self) -> int {
        format_mode(self.format, self.bpp as int)
    }

    /// Alpha is dropped, and formats that cannot hold colour lose it.
    open spec fn store_spec(mode: int, c: Color) -> Color {
        stored(mode, c)
    }

    /// "Over" onto the opaque pixel, then stored; a fully transparent source
    /// changes nothing.
    open spec fn blend_spec(mode: int, src: Color, dst: Color) -> Color {
        if src.a == 0 { dst } else { stored(mode, src.over_spec(dst)) }
    }

    proof fn lemma_inv(&self) {
    }

    fn width(&self) -> (r: usize) {
        self.width
    }

    fn height(&self) -> (r: usize) {
        self.height
    }

    fn clip(&self) -> (r: Rect) {
        self.clip
    }

    fn put_pixel(&mut self, x: usize, y: usize, c: Color) {
        if !self.clip.contains(x, y) {
            return;
        }
        proof { super::surface::lemma_usize_as_i64(x); super::surface::lemma_usize_as_i64(y); }
        self.write(x, y, c);
    }

    fn blend_pixel(&mut self, x: usize, y: usize, c: Color) {
        if c.a == 0 || !self.clip.contains(x, y) {
            return;
        }
        if c.a == 255 {
            return self.put_pixel(x, y, c);
        }
        proof { super::surface::lemma_usize_as_i64(x); super::surface::lemma_usize_as_i64(y); }
        let dst = self.at(x, y);
        let mixed = c.over(dst);
        self.write(x, y, mixed);
    }

    fn fill_row(&mut self, x: usize, y: usize, len: usize, c: Color) {
        if c.a == 0 {
            return;
        }
        let (x0, n) = match self.clip_run(x, y, len) {
            Some((s, n, _)) => (s, n),
            None => { return; },
        };
        let ghost start = *self;
        let ghost mode = self.mode();
        let (i_r, i_b) = match self.format {
            PixelFormat::Rgb => (0usize, 2usize),
            PixelFormat::Bgr => (2usize, 0usize),
            _ => {
                let mut i: usize = 0;
                while i < n
                    invariant
                        self.inv(),
                        self.width == start.width, self.height == start.height, self.clip == start.clip,
                        self.stride_bytes == start.stride_bytes, self.bpp == start.bpp, self.format == start.format,
                        mode == format_mode(start.format, start.bpp as int),
                        y < self.height, x0 + n <= self.width,
                        i <= n,
                        forall|qx: int, qy: int| #[trigger] self.pixel(qx, qy) == if qy == y && x0 <= qx < x0 + i {
                            stored(mode, c.over_spec(start.pixel(qx, qy)))
                        } else {
                            start.pixel(qx, qy)
                        },
                    decreases n - i,
                {
                    let d = self.at(x0 + i, y);
                    self.write(x0 + i, y, c.over(d));
                    i += 1;
                }
                return;
            },
        };
        if c.a == 255 {
            let mut i: usize = 0;
            while i < n
                invariant
                    self.inv(),
                    self.width == start.width, self.height == start.height, self.clip == start.clip,
                    self.stride_bytes == start.stride_bytes, self.bpp == start.bpp, self.format == start.format,
                        mode == format_mode(start.format, start.bpp as int),
                    (self.format == PixelFormat::Rgb && i_r == 0 && i_b == 2) || (self.format == PixelFormat::Bgr && i_r == 2 && i_b == 0),
                    y < self.height, x0 + n <= self.width,
                    i <= n,
                    forall|qx: int, qy: int| #[trigger] self.pixel(qx, qy) == if qy == y && x0 <= qx < x0 + i {
                        opaque(c.r, c.g, c.b)
                    } else {
                        start.pixel(qx, qy)
                    },
                decreases n - i,
            {
                self.set_rgb(x0 + i, y, i_r, i_b, c.r, c.g, c.b);
                i += 1;
            }
            return;
        }
        let inv = 255 - c.a;
        let (pre_r, pre_g, pre_b) = (mul255(c.r, c.a), mul255(c.g, c.a), mul255(c.b, c.a));
        proof {
            lemma_mul255_bounded(c.r, c.a);
            lemma_mul255_bounded(c.g, c.a);
            lemma_mul255_bounded(c.b, c.a);
        }
        let mut i: usize = 0;
        while i < n
            invariant
                self.inv(),
                self.width == start.width, self.height == start.height, self.clip == start.clip,
                self.stride_bytes == start.stride_bytes, self.bpp == start.bpp, self.format == start.format,
                        mode == format_mode(start.format, start.bpp as int),
                (self.format == PixelFormat::Rgb && i_r == 0 && i_b == 2) || (self.format == PixelFormat::Bgr && i_r == 2 && i_b == 0),
                y < self.height, x0 + n <= self.width,
                0 < c.a < 255, inv == 255 - c.a,
                pre_r == mul255_spec(c.r, c.a), pre_g == mul255_spec(c.g, c.a), pre_b == mul255_spec(c.b, c.a),
                pre_r <= c.a, pre_g <= c.a, pre_b <= c.a,
                i <= n,
                forall|qx: int, qy: int| #[trigger] self.pixel(qx, qy) == if qy == y && x0 <= qx < x0 + i {
                    stored(mode, c.over_spec(start.pixel(qx, qy)))
                } else {
                    start.pixel(qx, qy)
                },
            decreases n - i,
        {
            let d = self.at(x0 + i, y);
            proof {
                lemma_mul255_bounded(d.r, inv);
                lemma_mul255_bounded(d.g, inv);
                lemma_mul255_bounded(d.b, inv);
            }
            self.set_rgb(x0 + i, y, i_r, i_b, pre_r + mul255(d.r, inv), pre_g + mul255(d.g, inv), pre_b + mul255(d.b, inv));
            i += 1;
        }
    }

    fn blend_row(&mut self, x: usize, y: usize, src: &[Color], opacity: u8) {
        let (x0, n, skipped) = match self.clip_run(x, y, src.len()) {
            Some(run) => run,
            None => { return; },
        };
        let ghost start = *self;
        let ghost mode = self.mode();
        let (i_r, i_b) = match self.format {
            PixelFormat::Rgb => (0usize, 2usize),
            PixelFormat::Bgr => (2usize, 0usize),
            _ => {
                let mut i: usize = 0;
                while i < n
                    invariant
                        self.inv(),
                        self.width == start.width, self.height == start.height, self.clip == start.clip,
                        self.stride_bytes == start.stride_bytes, self.bpp == start.bpp, self.format == start.format,
                        mode == format_mode(start.format, start.bpp as int),
                        y < self.height, x0 + n <= self.width,
                        x0 == x + skipped, skipped + n <= src@.len(),
                        i <= n,
                        forall|qx: int, qy: int| #[trigger] self.pixel(qx, qy) == if qy == y && x0 <= qx < x0 + i {
                            Self::blend_spec(mode, src@[qx - x].fade_spec(opacity), start.pixel(qx, qy))
                        } else {
                            start.pixel(qx, qy)
                        },
                    decreases n - i,
                {
                    let c = src[skipped + i];
                    let a = mul255(c.a, opacity);
                    if a != 0 {
                        let d = self.at(x0 + i, y);
                        self.write(x0 + i, y, c.with_alpha(a).over(d));
                    }
                    i += 1;
                }
                return;
            },
        };
        let mut i: usize = 0;
        while i < n
            invariant
                self.inv(),
                self.width == start.width, self.height == start.height, self.clip == start.clip,
                self.stride_bytes == start.stride_bytes, self.bpp == start.bpp, self.format == start.format,
                        mode == format_mode(start.format, start.bpp as int),
                (self.format == PixelFormat::Rgb && i_r == 0 && i_b == 2) || (self.format == PixelFormat::Bgr && i_r == 2 && i_b == 0),
                y < self.height, x0 + n <= self.width,
                x0 == x + skipped, skipped + n <= src@.len(),
                i <= n,
                forall|qx: int, qy: int| #[trigger] self.pixel(qx, qy) == if qy == y && x0 <= qx < x0 + i {
                    Self::blend_spec(mode, src@[qx - x].fade_spec(opacity), start.pixel(qx, qy))
                } else {
                    start.pixel(qx, qy)
                },
            decreases n - i,
        {
            let c = src[skipped + i];
            let a = mul255(c.a, opacity);
            if a != 0 {
                if a == 255 {
                    self.set_rgb(x0 + i, y, i_r, i_b, c.r, c.g, c.b);
                } else {
                    let inv = 255 - a;
                    let d = self.at(x0 + i, y);
                    proof {
                        lemma_mul255_bounded(c.r, a);
                        lemma_mul255_bounded(c.g, a);
                        lemma_mul255_bounded(c.b, a);
                        lemma_mul255_bounded(d.r, inv);
                        lemma_mul255_bounded(d.g, inv);
                        lemma_mul255_bounded(d.b, inv);
                    }
                    self.set_rgb(x0 + i, y, i_r, i_b, mul255(c.r, a) + mul255(d.r, inv), mul255(c.g, a) + mul255(d.g, inv),
                        mul255(c.b, a) + mul255(d.b, inv));
                }
            }
            i += 1;
        }
    }

    fn read_pixel(&self, x: usize, y: usize) -> (c: Color) {
        if x >= self.width || y >= self.height {
            return Color::rgb(0, 0, 0);
        }
        self.at(x, y)
    }
}

impl<'a> Framebuffer<'a> {
    /// Trims a run of `len` pixels of row `y` from column `x` to the clip.
    /// Gives the surviving start, its length, and how many pixels were
    /// dropped off the front, which callers with a source buffer need in
    /// order to stay in step; nothing where no pixel survives.
    fn clip_run(&self, x: usize, y: usize, len: usize) -> (run: Option<(usize, usize, usize)>)
        requires
            self.inv(),
            x + len <= CANVAS_MAX,
            y <= CANVAS_MAX,
        ensures
            match run {
                Some((s, n, skipped)) => {
                    &&& self.clip.y0 <= y < self.clip.y1
                    &&& s == max_i(x as int, self.clip.x0 as int)
                    &&& s + n == min_i(x + len, self.clip.x1 as int)
                    &&& n > 0
                    &&& s == x + skipped
                },
                None => !(self.clip.y0 <= y < self.clip.y1)
                    || min_i(x + len, self.clip.x1 as int) <= max_i(x as int, self.clip.x0 as int),
            },
    {
        let row = y as i64;
        if row < self.clip.y0 as i64 || row >= self.clip.y1 as i64 {
            return None;
        }
        let start = if (x as i64) >= self.clip.x0 as i64 { x as i64 } else { self.clip.x0 as i64 };
        let end = if ((x + len) as i64) <= self.clip.x1 as i64 { (x + len) as i64 } else { self.clip.x1 as i64 };
        if end <= start {
            return None;
        }
        Some((start as usize, (end - start) as usize, (start - x as i64) as usize))
    }

    /// Sets the three colour bytes of an in-range pixel of an RGB or BGR
    /// buffer, red at `i_r` and blue at `i_b` within its slot.
    fn set_rgb(&mut self, x: usize, y: usize, i_r: usize, i_b: usize, r: u8, g: u8, b: u8)
        requires
            old(self).inv(),
            x < old(self).width,
            y < old(self).height,
            (old(self).format == PixelFormat::Rgb && i_r == 0 && i_b == 2)
                || (old(self).format == PixelFormat::Bgr && i_r == 2 && i_b == 0),
        ensures
            final(self).inv(),
            final(self).width == old(self).width,
            final(self).height == old(self).height,
            final(self).clip == old(self).clip,
            final(self).stride_bytes == old(self).stride_bytes,
            final(self).bpp == old(self).bpp,
            final(self).format == old(self).format,
            forall|px: int, py: int| #[trigger] final(self).pixel(px, py) == if px == x && py == y {
                opaque(r, g, b)
            } else {
                old(self).pixel(px, py)
            },
    {
        proof {
            lemma_slot_inside(x as int, y as int, self.width as int, self.height as int, self.stride_bytes as int, self.bpp as int, self.buf@.len() as int);
        }
        let ghost before = self.buf@;
        let off = y * self.stride_bytes + x * self.bpp;
        self.buf[off + i_r] = r;
        self.buf[off + 1] = g;
        self.buf[off + i_b] = b;
        proof {
            let slot = self.buf@.subrange(off as int, off + self.bpp);
            assert(slot[i_r as int] == r && slot[1] == g && slot[i_b as int] == b);
            lemma_one_slot_written(before, self.buf@, x as int, y as int, self.width as int, self.height as int,
                self.stride_bytes as int, self.bpp as int, self.format);
        }
    }

    /// The colour of an in-range pixel.
    fn at(&self, x: usize, y: usize) -> (c: Color)
        requires
            self.inv(),
            x < self.width,
            y < self.height,
        ensures c == self.pixel(x as int, y as int),
    {
        proof {
            lemma_slot_inside(x as int, y as int, self.width as int, self.height as int, self.stride_bytes as int, self.bpp as int, self.buf@.len() as int);
        }
        let off = y * self.stride_bytes + x * self.bpp;
        decode(&self.buf[off..off + self.bpp], self.format)
    }

    /// Stores `c` in an in-range pixel.
    fn write(&mut self, x: usize, y: usize, c: Color)
        requires
            old(self).inv(),
            x < old(self).width,
            y < old(self).height,
        ensures
            final(self).inv(),
            final(self).width == old(self).width,
            final(self).height == old(self).height,
            final(self).clip == old(self).clip,
            final(self).stride_bytes == old(self).stride_bytes,
            final(self).bpp == old(self).bpp,
            final(self).format == old(self).format,
            forall|px: int, py: int| #[trigger] final(self).pixel(px, py) == if px == x && py == y {
                stored(old(self).mode(), c)
            } else {
                old(self).pixel(px, py)
            },
    {
        proof {
            lemma_slot_inside(x as int, y as int, self.width as int, self.height as int, self.stride_bytes as int, self.bpp as int, self.buf@.len() as int);
        }
        let ghost before = self.buf@;
        let off = y * self.stride_bytes + x * self.bpp;
        encode(self.buf, off, self.bpp, self.format, c);
        proof {
            lemma_encode_decode(before.subrange(off as int, off + self.bpp), self.format, c);
            lemma_one_slot_written(before, self.buf@, x as int, y as int, self.width as int, self.height as int,
                self.stride_bytes as int, self.bpp as int, self.format);
        }
    }
}

} // verus!
