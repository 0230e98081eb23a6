use vstd::prelude::*;

verus! {

/// An RGB color, one byte per channel.
#[derive(Clone, Copy, Debug, PartialEq, Eq, Structural)]
pub struct Color {
    pub r: u8,
    pub g: u8,
    pub b: u8,
}

/// An exact nonnegative scale factor `num / den`, used where blending
/// needs a fraction of the way between two colors.
#[derive(Clone, Copy, Debug, PartialEq, Eq, Structural)]
pub struct Ratio {
    pub num: u64,
    pub den: u64,
}

/// `a / b` rounded to the nearest integer, halves rounded up.
pub open spec fn round_div(a: int, b: int) -> int {
    (2 * a + b) / (2 * b)
}

/// Clamp an unbounded value to a color channel's range.
pub open spec fn clamp_channel(v: int) -> u8 {
    if v > 255 {
        255u8
    } else if v < 0 {
        0u8
    } else {
        v as u8
    }
}

/// One channel scaled by `num / den`, rounded to nearest, then clamped.
pub open spec fn scaled_channel(c: u8, num: int, den: int) -> u8 {
    clamp_channel(round_div(c * num, den))
}

/// One channel of a saturating addition.
pub open spec fn saturated_channel(a: u8, b: u8) -> u8 {
    clamp_channel(a + b)
}

/// Per-channel addition that saturates at the channel maximum instead of
/// wrapping.
pub trait ClampedAdd<Rhs> {
    type Output;

    /// What the addition yields.
    spec fn clamped_add_spec(&self, rhs: Rhs) -> Self::Output;

    fn clamped_add(&self, rhs: Rhs) -> (r: Self::Output)
        ensures
            r == self.clamped_add_spec(rhs),
    ;
}

/// Per-channel scaling that rounds to the nearest integer and clamps to the
/// channel range instead of wrapping.
pub trait ClampedMul<Rhs> {
    type Output;

    /// Which factors the scaling accepts.
    spec fn clamped_mul_pre(&self, rhs: Rhs) -> bool;

    /// What the scaling yields.
    spec fn clamped_mul_spec(&self, rhs: Rhs) -> Self::Output;

    fn clamped_mul(&self, rhs: Rhs) -> (r: Self::Output)
        requires
            self.clamped_mul_pre(rhs),
        ensures
            r == self.clamped_mul_spec(rhs),
    ;
}

impl ClampedAdd<Color> for Color {
    type Output = Color;

    open spec fn clamped_add_spec(&self, rhs: Color) -> Color {
        Color {
            r: saturated_channel(self.r, rhs.r),
            g: saturated_channel(self.g, rhs.g),
            b: saturated_channel(self.b, rhs.b),
        }
    }

    fn clamped_add(&self, rhs: Color) -> (r: Color) {
        Color {
            r: add_channel(self.r, rhs.r),
            g: add_channel(self.g, rhs.g),
            b: add_channel(self.b, rhs.b),
        }
    }
}

impl ClampedMul<Ratio> for Color {
    type Output = Color;

    open spec fn clamped_mul_pre(&self, rhs: Ratio) -> bool {
        rhs.den > 0
    }

    open spec fn clamped_mul_spec(&self, rhs: Ratio) -> Color {
        Color {
            r: scaled_channel(self.r, rhs.num as int, rhs.den as int),
            g: scaled_channel(self.g, rhs.num as int, rhs.den as int),
            b: scaled_channel(self.b, rhs.num as int, rhs.den as int),
        }
    }

    fn clamped_mul(&self, rhs: Ratio) -> (r: Color) {
        Color {
            r: mul_channel(self.r, rhs.num, rhs.den),
            g: mul_channel(self.g, rhs.num, rhs.den),
            b: mul_channel(self.b, rhs.num, rhs.den),
        }
    }
}

/// `min(a + b, 255)` on channel values.
fn add_channel(a: u8, b: u8) -> (r: u8)
    ensures
        r == saturated_channel(a, b),
{
    if a as u16 + b as u16 > 255 {
        255
    } else {
        a + b
    }
}

/// `c * num / den` rounded to nearest and clamped, in exact integer
/// arithmetic.
fn mul_channel(c: u8, num: u64, den: u64) -> (r: u8)
    requires
        den > 0,
    ensures
        r == scaled_channel(c, num as int, den as int),
{
    proof {
        assert(c as int * num as int <= 255 * (u64::MAX as int)) by (nonlinear_arith)
            requires
                c <= 255,
                num <= u64::MAX,
        ;
    }
    let prod: u128 = c as u128 * num as u128;
    let v: u128 = (2 * prod + den as u128) / (2 * (den as u128));
    if v > 255 {
        255
    } else {
        v as u8
    }
}

/// Linear interpolation `a * (1 - t) + b * t`, with the factor `t = num / den`
/// clamped to `[0, 1]` before blending.
pub open spec fn lerp_spec(a: Color, b: Color, t: Ratio) -> Color {
    let n = if t.num > t.den {
        t.den
    } else {
        t.num
    };
    a.clamped_mul_spec(Ratio { num: ((t.den - n) as u64), den: t.den }).clamped_add_spec(
        b.clamped_mul_spec(Ratio { num: n, den: t.den }),
    )
}

/// Blend `a` toward `b` by the fraction `t`.
pub fn lerp(a: Color, b: Color, t: Ratio) -> (r: Color)
    requires
        t.den > 0,
    ensures
        r == lerp_spec(a, b, t),
{
    let n = if t.num > t.den {
        t.den
    } else {
        t.num
    };
    let first = a.clamped_mul(Ratio { num: t.den - n, den: t.den });
    let second = b.clamped_mul(Ratio { num: n, den: t.den });
    first.clamped_add(second)
}

/// A strategy that picks the color of the `idx`-th cell of a path of `total`
/// cells.
#[derive(Clone, Copy, Debug, PartialEq, Eq, Structural)]
pub enum Gradient {
    /// `lerp(from, to, idx / total)`.
    Linear { from: Color, to: Color },
    /// `first` on even indices, `second` on odd ones, with no blending.
    Alternating { first: Color, second: Color },
}

/// The color a gradient assigns to position `idx` of `total`.
pub open spec fn color_at_spec(g: Gradient, idx: usize, total: usize) -> Color {
    match g {
        Gradient::Linear { from, to } => lerp_spec(
            from,
            to,
            Ratio { num: idx as u64, den: total as u64 },
        ),
        Gradient::Alternating { first, second } => if idx % 2 == 0 {
            first
        } else {
            second
        },
    }
}

impl Gradient {
    /// The color for the `idx`-th of `total` path cells.
    pub fn color_at(&self, idx: usize, total: usize) -> (r: Color)
        requires
            total > 0,
        ensures
            r == color_at_spec(*self, idx, total),
    {
        match *self {
            Gradient::Linear { from, to } => lerp(
                from,
                to,
                Ratio { num: idx as u64, den: total as u64 },
            ),
            Gradient::Alternating { first, second } => {
                if idx % 2 == 0 {
                    first
                } else {
                    second
                }
            },
        }
    }
}

/// Scaling any color by an exact zero factor yields black.
pub proof fn lemma_scale_zero(c: Color, den: u64)
    requires
        den > 0,
    ensures
        c.clamped_mul_spec(Ratio { num: 0, den }) == (Color { r: 0, g: 0, b: 0 }),
{
    assert(round_div(c.r * 0, den as int) == 0) by (nonlinear_arith)
        requires
            den > 0,
    ;
    assert(round_div(c.g * 0, den as int) == 0) by (nonlinear_arith)
        requires
            den > 0,
    ;
    assert(round_div(c.b * 0, den as int) == 0) by (nonlinear_arith)
        requires
            den > 0,
    ;
}

} // verus!
