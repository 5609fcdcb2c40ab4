use vstd::prelude::*;

verus! {

/// `a * b / 255`, rounded to the nearest integer. With 8-bit operands the
/// quotient is never exactly halfway between two integers.
pub open spec fn mul255_spec(a: u8, b: u8) -> u8 {
    ((a as int * b as int + 127) / 255) as u8
}

proof fn lemma_mul255_exact(a: u32, b: u32, t: u32, s: u32)
    requires
        a < 256,
        b < 256,
        t == a * b + 128,
        s == t + (t >> 8u32),
    ensures
        (s >> 8u32) == (a * b + 127) / 255,
        (s >> 8u32) < 256,
{
    assert((s >> 8u32) == (a * b + 127) / 255 && (s >> 8u32) < 256) by (bit_vector)
        requires a < 256, b < 256, t == a * b + 128, s == t + (t >> 8u32);
}

/// Multiplies two 8-bit fractions of 255: `a * b / 255`, rounded.
pub fn mul255(a: u8, b: u8) -> (r: u8)
    ensures r == mul255_spec(a, b),
{
    let a32 = a as u32;
    let b32 = b as u32;
    assert(a32 * b32 <= 255 * 255) by (nonlinear_arith) requires a32 < 256, b32 < 256;
    let t: u32 = a32 * b32 + 128;
    assert(t >> 8u32 <= t) by (bit_vector);
    let s: u32 = t + (t >> 8u32);
    proof { lemma_mul255_exact(a32, b32, t, s); }
    (s >> 8u32) as u8
}

/// Straight-alpha RGBA colour, 8 bits per channel.
#[derive(Copy, Clone, Debug, PartialEq, Eq, Structural)]
pub struct Color {
    pub r: u8,
    pub g: u8,
    pub b: u8,
    pub a: u8,
}

/// One channel of a blend between `x` and `y`, `t` of the way from `x` to `y`
/// in 255ths, rounded down.
pub open spec fn mix_spec(x: u8, y: u8, t: u8) -> u8 {
    ((x as int * (255 - t as int) + y as int * t as int) / 255) as u8
}

/// One channel of `s` at opacity `sa` laid over `d`.
pub open spec fn blend_channel(s: u8, d: u8, sa: u8) -> u8 {
    (mul255_spec(s, sa) + mul255_spec(d, (255 - sa) as u8)) as u8
}

/// One channel of a straight-alpha composite: the source weighted by
/// `sa * 255`, the destination by `keep`, over their sum `total`.
pub open spec fn straight_channel(s: u8, d: u8, sa: int, keep: int, total: int) -> u8 {
    ((s as int * sa * 255 + d as int * keep) / total) as u8
}

impl Color {
    pub open spec fn transparent_spec() -> Color {
        Color { r: 0, g: 0, b: 0, a: 0 }
    }

    pub open spec fn black_spec() -> Color {
        Color { r: 0, g: 0, b: 0, a: 255 }
    }

    pub open spec fn white_spec() -> Color {
        Color { r: 255, g: 255, b: 255, a: 255 }
    }

    pub open spec fn ink_spec() -> Color {
        Color { r: 20, g: 50, b: 90, a: 255 }
    }

    /// Nothing at all.
    #[verifier::when_used_as_spec(transparent_spec)]
    pub fn transparent() -> (c: Color)
        ensures c == Color::transparent_spec(),
    {
        Color { r: 0, g: 0, b: 0, a: 0 }
    }

    #[verifier::when_used_as_spec(black_spec)]
    pub fn black() -> (c: Color)
        ensures c == Color::black_spec(),
    {
        Color { r: 0, g: 0, b: 0, a: 255 }
    }

    #[verifier::when_used_as_spec(white_spec)]
    pub fn white() -> (c: Color)
        ensures c == Color::white_spec(),
    {
        Color { r: 255, g: 255, b: 255, a: 255 }
    }

    /// The dark blue all text is set in.
    #[verifier::when_used_as_spec(ink_spec)]
    pub fn ink() -> (c: Color)
        ensures c == Color::ink_spec(),
    {
        Color { r: 20, g: 50, b: 90, a: 255 }
    }

    /// The sky at the top of the wallpaper.
    pub fn bg_top() -> (c: Color)
        ensures c == (Color { r: 58, g: 130, b: 200, a: 255 }),
    {
        Color { r: 58, g: 130, b: 200, a: 255 }
    }

    /// The sky halfway down.
    pub fn bg_mid() -> (c: Color)
        ensures c == (Color { r: 140, g: 195, b: 235, a: 255 }),
    {
        Color { r: 140, g: 195, b: 235, a: 255 }
    }

    /// The haze at the horizon.
    pub fn bg_bottom() -> (c: Color)
        ensures c == (Color { r: 225, g: 240, b: 250, a: 255 }),
    {
        Color { r: 225, g: 240, b: 250, a: 255 }
    }

    /// The warm yellow of the sun, the ball and the cursor.
    pub fn accent() -> (c: Color)
        ensures c == (Color { r: 255, g: 220, b: 130, a: 255 }),
    {
        Color { r: 255, g: 220, b: 130, a: 255 }
    }

    /// The pale halo around the sun.
    pub fn glow() -> (c: Color)
        ensures c == (Color { r: 255, g: 245, b: 205, a: 255 }),
    {
        Color { r: 255, g: 245, b: 205, a: 255 }
    }

    /// The milky white of glass panels.
    pub fn card() -> (c: Color)
        ensures c == (Color { r: 255, g: 255, b: 255, a: 130 }),
    {
        Color { r: 255, g: 255, b: 255, a: 130 }
    }

    /// The white of the clouds.
    pub fn cloud() -> (c: Color)
        ensures c == (Color { r: 255, g: 255, b: 255, a: 230 }),
    {
        Color { r: 255, g: 255, b: 255, a: 230 }
    }

    pub open spec fn fade_spec(self, factor: u8) -> Color {
        Color { a: mul255_spec(self.a, factor), ..self }
    }

    pub open spec fn lerp_spec(a: Color, b: Color, t: u8) -> Color {
        Color {
            r: mix_spec(a.r, b.r, t),
            g: mix_spec(a.g, b.g, t),
            b: mix_spec(a.b, b.b, t),
            a: mix_spec(a.a, b.a, t),
        }
    }

    /// `self` composited over `dst`, the destination taken as opaque.
    pub open spec fn over_spec(self, dst: Color) -> Color {
        if self.a == 255 {
            self
        } else if self.a == 0 {
            dst
        } else {
            Color {
                r: blend_channel(self.r, dst.r, self.a),
                g: blend_channel(self.g, dst.g, self.a),
                b: blend_channel(self.b, dst.b, self.a),
                a: 255,
            }
        }
    }

    /// `self` composited over `dst` where both carry straight alpha.
    pub open spec fn over_straight_spec(self, dst: Color) -> Color {
        if self.a == 255 || dst.a == 0 {
            self
        } else if self.a == 0 {
            dst
        } else {
            let sa = self.a as int;
            let keep = dst.a as int * (255 - sa);
            let total = sa * 255 + keep;
            Color {
                r: straight_channel(self.r, dst.r, sa, keep, total),
                g: straight_channel(self.g, dst.g, sa, keep, total),
                b: straight_channel(self.b, dst.b, sa, keep, total),
                a: (total / 255) as u8,
            }
        }
    }

    pub fn rgb(r: u8, g: u8, b: u8) -> (c: Color)
        ensures c == (Color { r, g, b, a: 255 }),
    {
        Color { r, g, b, a: 255 }
    }

    pub fn rgba(r: u8, g: u8, b: u8, a: u8) -> (c: Color)
        ensures c == (Color { r, g, b, a }),
    {
        Color { r, g, b, a }
    }

    pub fn with_alpha(self, a: u8) -> (c: Color)
        ensures c == (Color { a, ..self }),
    {
        Color { a, ..self }
    }

    /// The same colour at `factor / 255` of its opacity.
    pub fn fade(self, factor: u8) -> (c: Color)
        ensures c == self.fade_spec(factor),
    {
        Color { a: mul255(self.a, factor), ..self }
    }

    /// Every channel, alpha included, `t / 255` of the way from `a` to `b`.
    pub fn lerp(a: Color, b: Color, t: u8) -> (c: Color)
        ensures c == Color::lerp_spec(a, b, t),
    {
        Color {
            r: mix(a.r, b.r, t),
            g: mix(a.g, b.g, t),
            b: mix(a.b, b.b, t),
            a: mix(a.a, b.a, t),
        }
    }

    /// Composites `self` over an opaque `dst`; the result is opaque.
    pub fn over(self, dst: Color) -> (c: Color)
        ensures c == self.over_spec(dst),
    {
        if self.a == 255 {
            return self;
        }
        if self.a == 0 {
            return dst;
        }
        let sa = self.a;
        Color {
            r: blend(self.r, dst.r, sa),
            g: blend(self.g, dst.g, sa),
            b: blend(self.b, dst.b, sa),
            a: 255,
        }
    }

    /// Composites `self` over `dst` where both carry straight alpha.
    pub fn over_straight(self, dst: Color) -> (c: Color)
        ensures c == self.over_straight_spec(dst),
    {
        if self.a == 255 || dst.a == 0 {
            return self;
        }
        if self.a == 0 {
            return dst;
        }
        let sa = self.a as u32;
        let da = dst.a as u32;
        assert(da * (255 - sa) <= 255 * 255) by (nonlinear_arith) requires da < 256, sa < 256;
        let keep = da * (255 - sa);
        let total = sa * 255 + keep;
        assert(total / 255 < 256) by (nonlinear_arith)
            requires total == sa * 255 + da * (255 - sa), 0 < sa < 255, da < 256;
        Color {
            r: straight(self.r, dst.r, sa, keep, total),
            g: straight(self.g, dst.g, sa, keep, total),
            b: straight(self.b, dst.b, sa, keep, total),
            a: (total / 255) as u8,
        }
    }
}

fn mix(x: u8, y: u8, t: u8) -> (r: u8)
    ensures r == mix_spec(x, y, t),
{
    let xi = x as u16;
    let yi = y as u16;
    let ti = t as u16;
    assert(xi * (255 - ti) + yi * ti <= 255 * 255) by (nonlinear_arith)
        requires xi < 256, yi < 256, ti < 256;
    ((xi * (255 - ti) + yi * ti) / 255) as u8
}

fn blend(s: u8, d: u8, sa: u8) -> (r: u8)
    ensures r == blend_channel(s, d, sa),
{
    proof { lemma_mul255_bounded(s, sa); lemma_mul255_bounded(d, (255 - sa) as u8); }
    mul255(s, sa) + mul255(d, 255 - sa)
}

fn straight(s: u8, d: u8, sa: u32, keep: u32, total: u32) -> (r: u8)
    requires
        0 < sa < 255,
        keep <= 255 * 255,
        total == sa * 255 + keep,
    ensures r == straight_channel(s, d, sa as int, keep as int, total as int),
{
    let s32 = s as u32;
    let d32 = d as u32;
    assert(s32 * sa * 255 + d32 * keep <= 255 * total) by (nonlinear_arith)
        requires s32 < 256, d32 < 256, total == sa * 255 + keep, sa < 255, keep <= 255 * 255;
    ((s32 * sa * 255 + d32 * keep) / total) as u8
}

/// `mul255` never exceeds either operand, is symmetric, keeps a value at full
/// strength and clears it at zero.
pub proof fn lemma_mul255_bounded(a: u8, b: u8)
    ensures
        mul255_spec(a, b) <= a,
        mul255_spec(a, b) <= b,
        mul255_spec(a, b) == mul255_spec(b, a),
        mul255_spec(a, 255) == a,
        mul255_spec(a, 0) == 0,
{
    let (ai, bi) = (a as int, b as int);
    assert((ai * bi + 127) / 255 <= bi) by (nonlinear_arith) requires 0 <= ai < 256, 0 <= bi < 256;
    assert((ai * bi + 127) / 255 <= ai) by (nonlinear_arith) requires 0 <= ai < 256, 0 <= bi < 256;
    assert(ai * bi == bi * ai) by (nonlinear_arith);
}

/// Fading by 255 is no change; fading by 0 makes a colour invisible.
pub proof fn lemma_fade_identity(c: Color)
    ensures
        c.fade_spec(255) == c,
        c.fade_spec(0).a == 0,
{
    lemma_mul255_bounded(c.a, 255);
    lemma_mul255_bounded(c.a, 0);
}

/// An opaque source hides what is under it, a transparent one changes
/// nothing, and anything composited over an opaque destination is opaque.
pub proof fn lemma_over_laws(src: Color, dst: Color)
    ensures
        src.a == 255 ==> src.over_spec(dst) == src,
        src.a == 0 ==> src.over_spec(dst) == dst,
        dst.a == 255 ==> src.over_spec(dst).a == 255,
        src.a == 255 ==> src.over_straight_spec(dst) == src,
        src.a == 0 && dst.a != 0 ==> src.over_straight_spec(dst) == dst,
        dst.a == 0 ==> src.over_straight_spec(dst) == src,
{
}

/// The ends of a blend are its operands.
pub proof fn lemma_lerp_ends(a: Color, b: Color)
    ensures
        Color::lerp_spec(a, b, 0) == a,
        Color::lerp_spec(a, b, 255) == b,
{
    assert forall|x: u8, y: u8| mix_spec(x, y, 0) == x && mix_spec(x, y, 255) == y by {
        let (xi, yi) = (x as int, y as int);
        assert((xi * 255 + yi * 0) / 255 == xi) by (nonlinear_arith);
        assert((xi * 0 + yi * 255) / 255 == yi) by (nonlinear_arith);
    }
}

/// Compositing with straight alpha never makes a pixel more transparent:
/// the result is at least as opaque as either input.
pub proof fn lemma_over_straight_alpha(src: Color, dst: Color)
    ensures
        src.over_straight_spec(dst).a >= src.a,
        src.over_straight_spec(dst).a >= dst.a,
{
    if !(src.a == 255 || dst.a == 0) && src.a != 0 {
        let sa = src.a as int;
        let da = dst.a as int;
        let total = sa * 255 + da * (255 - sa);
        assert(total / 255 >= sa) by (nonlinear_arith) requires total == sa * 255 + da * (255 - sa), 0 <= da, sa < 255;
        assert(total / 255 >= da) by (nonlinear_arith) requires total == sa * 255 + da * (255 - sa), 0 <= da <= 255, 0 < sa;
        assert(total / 255 <= 255) by (nonlinear_arith) requires total == sa * 255 + da * (255 - sa), 0 <= da <= 255, 0 < sa < 255;
    }
}

/// Straight-alpha "over" weights each colour by how much of it shows: the
/// source by its alpha, the destination by its own alpha times what the
/// source lets through. For a part-transparent source over a visible
/// destination, each channel of the result is
/// `(s * sa * 255 + d * da * (255 - sa)) / (sa * 255 + da * (255 - sa))`
/// and the alpha is `(sa * 255 + da * (255 - sa)) / 255`; each channel lies
/// between the two inputs' channels.
pub proof fn lemma_over_straight_weights(src: Color, dst: Color)
    requires
        0 < src.a < 255,
        0 < dst.a,
    ensures
        ({
            let sa = src.a as int;
            let da = dst.a as int;
            let out = src.over_straight_spec(dst);
            let total = sa * 255 + da * (255 - sa);
            &&& out.r as int == (src.r as int * sa * 255 + dst.r as int * da * (255 - sa)) / total
            &&& out.g as int == (src.g as int * sa * 255 + dst.g as int * da * (255 - sa)) / total
            &&& out.b as int == (src.b as int * sa * 255 + dst.b as int * da * (255 - sa)) / total
            &&& out.a as int == total / 255
            &&& (src.r <= out.r <= dst.r || dst.r <= out.r <= src.r)
            &&& (src.g <= out.g <= dst.g || dst.g <= out.g <= src.g)
            &&& (src.b <= out.b <= dst.b || dst.b <= out.b <= src.b)
        }),
{
    let sa = src.a as int;
    let da = dst.a as int;
    let keep = da * (255 - sa);
    let total = sa * 255 + keep;
    assert(0 < keep <= 255 * 255 && total > 0) by (nonlinear_arith) requires 0 < sa < 255, 0 < da <= 255, keep == da * (255 - sa), total == sa * 255 + keep;
    assert(total / 255 <= 255) by (nonlinear_arith) requires total == sa * 255 + da * (255 - sa), 0 <= da <= 255, 0 < sa < 255;
    lemma_straight_between(src.r, dst.r, sa, da);
    lemma_straight_between(src.g, dst.g, sa, da);
    lemma_straight_between(src.b, dst.b, sa, da);
}

/// One channel of a straight-alpha composite, written with the
/// destination's alpha, lies between the two channels.
proof fn lemma_straight_between(s: u8, d: u8, sa: int, da: int)
    requires 0 < sa < 255, 0 < da <= 255,
    ensures
        ({
            let keep = da * (255 - sa);
            let total = sa * 255 + keep;
            let v = straight_channel(s, d, sa, keep, total) as int;
            &&& v == (s as int * sa * 255 + d as int * da * (255 - sa)) / total
            &&& (s as int <= v <= d as int || d as int <= v <= s as int)
        }),
{
    let keep = da * (255 - sa);
    let total = sa * 255 + keep;
    let si = s as int;
    let di = d as int;
    assert(0 < keep && total > 0) by (nonlinear_arith) requires 0 < sa < 255, 0 < da, keep == da * (255 - sa), total == sa * 255 + keep;
    let n = si * sa * 255 + di * keep;
    assert(di * da * (255 - sa) == di * keep) by (nonlinear_arith) requires keep == da * (255 - sa);
    if si <= di {
        assert(si * total <= n <= di * total) by (nonlinear_arith)
            requires si <= di, total == sa * 255 + keep, 0 <= si, sa > 0, keep > 0, n == si * sa * 255 + di * keep;
        lemma_div_between(n, total, si, di);
    } else {
        assert(di * total <= n <= si * total) by (nonlinear_arith)
            requires di < si, total == sa * 255 + keep, 0 <= di, sa > 0, keep > 0, n == si * sa * 255 + di * keep;
        lemma_div_between(n, total, di, si);
    }
}

/// `lo * t <= n <= hi * t` puts `n / t` between `lo` and `hi`.
proof fn lemma_div_between(n: int, t: int, lo: int, hi: int)
    requires t > 0, 0 <= lo, lo * t <= n <= hi * t,
    ensures lo <= n / t <= hi,
{
    assert(lo <= n / t) by (nonlinear_arith) requires t > 0, lo * t <= n;
    assert(n / t <= hi) by (nonlinear_arith) requires t > 0, n <= hi * t;
}

} // verus!
