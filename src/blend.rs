//! Colour blend strategies: combine a background colour, a foreground colour
//! and a coverage fraction `covered / samples` into one colour.

use vstd::prelude::*;
use crate::color::{red, green, blue, rgb, is_rgb, channels, pack};

verus! {

/// A coverage fraction `covered / samples`, as the blend functions take it.
pub open spec fn valid_coverage(covered: u32, samples: u32) -> bool {
    0 < samples && covered <= samples
}

/// Linear interpolation from `a` (coverage 0) to `b` (coverage 1) at
/// `covered / samples`, scaled by `samples` so that it stays an integer.
pub open spec fn lerp_scaled(a: int, b: int, covered: int, samples: int) -> int {
    a * (samples - covered) + b * covered
}

/// The linearly blended channel: the interpolation, truncated.
pub open spec fn linear_channel(bc: int, fc: int, covered: int, samples: int) -> int {
    lerp_scaled(bc, fc, covered, samples) / samples
}

/// `s` is the square root of `num / den`, truncated.
pub open spec fn is_floor_sqrt(s: int, num: int, den: int) -> bool {
    0 <= s && s * s * den <= num && num < (s + 1) * (s + 1) * den
}

/// The gamma-corrected channel: both channels squared, interpolated, and the
/// square root of the result, truncated.
pub open spec fn gamma_channel(bc: int, fc: int, covered: int, samples: int) -> int {
    choose|s: int| #[trigger] is_floor_sqrt(s, lerp_scaled(bc * bc, fc * fc, covered, samples), samples)
}

/// The two interchangeable blend strategies.
#[derive(Clone, Copy, Debug, PartialEq, Eq, Structural)]
pub enum BlendStrategy {
    /// Each channel interpolated linearly between the two colours.
    Naive,
    /// Each channel interpolated between the squares of the two colours'
    /// channels, then taken back by a square root.
    GammaCorrected,
}

/// The colour that a strategy gives for a background, a foreground and a
/// coverage fraction.
pub open spec fn blend(
    strategy: BlendStrategy,
    background: u32,
    foreground: u32,
    covered: int,
    samples: int,
) -> int {
    match strategy {
        BlendStrategy::Naive => rgb(
            linear_channel(red(background), red(foreground), covered, samples),
            linear_channel(green(background), green(foreground), covered, samples),
            linear_channel(blue(background), blue(foreground), covered, samples),
        ),
        BlendStrategy::GammaCorrected => rgb(
            gamma_channel(red(background), red(foreground), covered, samples),
            gamma_channel(green(background), green(foreground), covered, samples),
            gamma_channel(blue(background), blue(foreground), covered, samples),
        ),
    }
}

/// Each channel of `c` is the truncated square root of the interpolated
/// squares of the matching channels of `background` and `foreground`.
pub open spec fn gamma_brackets(c: u32, background: u32, foreground: u32, covered: int, samples: int) -> bool {
    &&& is_floor_sqrt(
        red(c),
        lerp_scaled(red(background) * red(background), red(foreground) * red(foreground), covered, samples),
        samples,
    )
    &&& is_floor_sqrt(
        green(c),
        lerp_scaled(
            green(background) * green(background),
            green(foreground) * green(foreground),
            covered,
            samples,
        ),
        samples,
    )
    &&& is_floor_sqrt(
        blue(c),
        lerp_scaled(blue(background) * blue(background), blue(foreground) * blue(foreground), covered, samples),
        samples,
    )
}

/// Each channel of `c` lies between the matching channels of `a` and `b`.
pub open spec fn channels_between(c: u32, a: u32, b: u32) -> bool {
    &&& between(red(c), red(a), red(b))
    &&& between(green(c), green(a), green(b))
    &&& between(blue(c), blue(a), blue(b))
}

/// `v` lies between `a` and `b`, in either order.
pub open spec fn between(v: int, a: int, b: int) -> bool {
    (a <= v <= b) || (b <= v <= a)
}

/// The interpolation of two channels in `0..256`, scaled by `samples`.
pub fn lerp(a: u32, b: u32, covered: u32, samples: u32) -> (r: u64)
    requires
        a <= 0xFFFF,
        b <= 0xFFFF,
        valid_coverage(covered, samples),
    ensures
        r == lerp_scaled(a as int, b as int, covered as int, samples as int),
        r <= 0xFFFF * samples,
{
    let rest = (samples - covered) as u64;
    assert(a * rest <= 0xFFFF * rest && b * covered <= 0xFFFF * covered) by (nonlinear_arith)
        requires
            a <= 0xFFFF,
            b <= 0xFFFF,
    ;
    a as u64 * rest + b as u64 * covered as u64
}

/// The interpolated value lies between its two ends.
proof fn lemma_lerp_between(a: int, b: int, covered: int, samples: int)
    requires
        0 <= covered <= samples,
        0 < samples,
    ensures
        a <= b ==> a * samples <= lerp_scaled(a, b, covered, samples) <= b * samples,
        b <= a ==> b * samples <= lerp_scaled(a, b, covered, samples) <= a * samples,
{
    assert(a <= b ==> a * samples <= lerp_scaled(a, b, covered, samples) <= b * samples)
        by (nonlinear_arith)
        requires
            0 <= covered <= samples,
            0 < samples,
    ;
    assert(b <= a ==> b * samples <= lerp_scaled(a, b, covered, samples) <= a * samples)
        by (nonlinear_arith)
        requires
            0 <= covered <= samples,
            0 < samples,
    ;
}

/// A linearly blended channel lies between its two ends.
proof fn lemma_linear_channel_between(bc: int, fc: int, covered: int, samples: int)
    requires
        0 <= covered <= samples,
        0 < samples,
        0 <= bc < 0x100,
        0 <= fc < 0x100,
    ensures
        between(linear_channel(bc, fc, covered, samples), bc, fc),
{
    lemma_lerp_between(bc, fc, covered, samples);
    let v = lerp_scaled(bc, fc, covered, samples);
    if bc <= fc {
        vstd::arithmetic::div_mod::lemma_div_is_ordered(bc * samples, v, samples);
        vstd::arithmetic::div_mod::lemma_div_is_ordered(v, fc * samples, samples);
    } else {
        vstd::arithmetic::div_mod::lemma_div_is_ordered(fc * samples, v, samples);
        vstd::arithmetic::div_mod::lemma_div_is_ordered(v, bc * samples, samples);
    }
    vstd::arithmetic::div_mod::lemma_div_multiples_vanish(bc, samples);
    vstd::arithmetic::div_mod::lemma_div_multiples_vanish(fc, samples);
}

/// At most one integer is the truncated square root of a fraction.
proof fn lemma_floor_sqrt_unique(s: int, t: int, num: int, den: int)
    requires
        is_floor_sqrt(s, num, den),
        is_floor_sqrt(t, num, den),
        0 < den,
    ensures
        s == t,
{
    if s < t {
        assert((s + 1) * (s + 1) * den <= t * t * den) by (nonlinear_arith)
            requires
                0 <= s < t,
                0 < den,
        ;
    } else if t < s {
        assert((t + 1) * (t + 1) * den <= s * s * den) by (nonlinear_arith)
            requires
                0 <= t < s,
                0 < den,
        ;
    }
}

/// A gamma-corrected channel is the integer that brackets the interpolated
/// square.
proof fn lemma_gamma_channel_is(s: int, bc: int, fc: int, covered: int, samples: int)
    requires
        is_floor_sqrt(s, lerp_scaled(bc * bc, fc * fc, covered, samples), samples),
        0 < samples,
    ensures
        gamma_channel(bc, fc, covered, samples) == s,
{
    let num = lerp_scaled(bc * bc, fc * fc, covered, samples);
    let t = gamma_channel(bc, fc, covered, samples);
    assert(is_floor_sqrt(t, num, samples));
    lemma_floor_sqrt_unique(s, t, num, samples);
}

/// A gamma-corrected channel lies between its two ends.
proof fn lemma_gamma_channel_between(s: int, bc: int, fc: int, covered: int, samples: int)
    requires
        0 <= covered <= samples,
        0 < samples,
        0 <= bc < 0x100,
        0 <= fc < 0x100,
        is_floor_sqrt(s, lerp_scaled(bc * bc, fc * fc, covered, samples), samples),
    ensures
        between(s, bc, fc),
{
    let num = lerp_scaled(bc * bc, fc * fc, covered, samples);
    lemma_lerp_between(bc * bc, fc * fc, covered, samples);
    assert(bc <= fc ==> bc * bc <= fc * fc) by (nonlinear_arith)
        requires
            0 <= bc,
            0 <= fc,
    ;
    assert(fc <= bc ==> fc * fc <= bc * bc) by (nonlinear_arith)
        requires
            0 <= bc,
            0 <= fc,
    ;
    assert(between(s, bc, fc)) by (nonlinear_arith)
        requires
            0 <= bc,
            0 <= fc,
            0 < samples,
            0 <= s,
            s * s * samples <= num,
            num < (s + 1) * (s + 1) * samples,
            bc <= fc ==> bc * bc * samples <= num <= fc * fc * samples,
            fc <= bc ==> fc * fc * samples <= num <= bc * bc * samples,
    ;
}

/// Blending a colour with itself gives that colour back (its three channel
/// bytes, `c & 0xFFFFFF`), whatever the coverage and whichever the strategy.
pub proof fn lemma_blend_same_color(strategy: BlendStrategy, c: u32, covered: int, samples: int)
    requires
        0 <= covered <= samples,
        0 < samples,
    ensures
        blend(strategy, c, c, covered, samples) == c % 0x100_0000,
{
    assert((c / 0x10000) % 0x100 * 0x10000 + (c / 0x100) % 0x100 * 0x100 + c % 0x100 == c
        % 0x100_0000) by (bit_vector);
    lemma_channel_same(red(c), covered, samples);
    lemma_channel_same(green(c), covered, samples);
    lemma_channel_same(blue(c), covered, samples);
}

/// Both channel blends of a value with itself give the value back.
proof fn lemma_channel_same(v: int, covered: int, samples: int)
    requires
        0 <= v,
        0 <= covered <= samples,
        0 < samples,
    ensures
        linear_channel(v, v, covered, samples) == v,
        gamma_channel(v, v, covered, samples) == v,
{
    assert(lerp_scaled(v, v, covered, samples) == samples * v) by (nonlinear_arith);
    assert(lerp_scaled(v * v, v * v, covered, samples) == v * v * samples) by (nonlinear_arith);
    vstd::arithmetic::div_mod::lemma_div_multiples_vanish(v, samples);
    assert(is_floor_sqrt(v, v * v * samples, samples)) by (nonlinear_arith)
        requires
            0 <= v,
            0 < samples,
    ;
    lemma_gamma_channel_is(v, v, v, covered, samples);
}

/// The square root of `num / den`, truncated, for a value below `256 * 256`.
fn floor_sqrt_ratio(num: u64, den: u32) -> (s: u32)
    requires
        0 < den,
        num < 0x10000 * den,
    ensures
        is_floor_sqrt(s as int, num as int, den as int),
        s < 0x100,
{
    let d = den as u64;
    let mut lo: u64 = 0;
    let mut hi: u64 = 0x100;
    while hi - lo > 1
        invariant
            0 <= lo < hi <= 0x100,
            d == den,
            0 < den,
            lo * lo * d <= num,
            num < hi * hi * d,
        decreases hi - lo,
    {
        let mid = lo + (hi - lo) / 2;
        assert(mid * mid <= 0x10000) by (nonlinear_arith)
            requires
                mid <= 0x100,
        ;
        assert(mid * mid * d <= 0x10000 * 0xFFFF_FFFF) by (nonlinear_arith)
            requires
                mid <= 0x100,
                d <= 0xFFFF_FFFF,
        ;
        if mid * mid * d <= num {
            lo = mid;
        } else {
            hi = mid;
        }
    }
    lo as u32
}

/// Blends one channel pair linearly.
fn blend_channel_naively(bc: u32, fc: u32, covered: u32, samples: u32) -> (r: u32)
    requires
        bc < 0x100,
        fc < 0x100,
        valid_coverage(covered, samples),
    ensures
        r == linear_channel(bc as int, fc as int, covered as int, samples as int),
        r < 0x100,
{
    let v = lerp(bc, fc, covered, samples);
    proof {
        lemma_linear_channel_between(bc as int, fc as int, covered as int, samples as int);
    }
    (v / samples as u64) as u32
}

/// Blends one channel pair in squared (approximately linear-light) space.
fn blend_channel_gamma_corrected(bc: u32, fc: u32, covered: u32, samples: u32) -> (r: u32)
    requires
        bc < 0x100,
        fc < 0x100,
        valid_coverage(covered, samples),
    ensures
        r == gamma_channel(bc as int, fc as int, covered as int, samples as int),
        is_floor_sqrt(
            r as int,
            lerp_scaled(bc * bc, fc * fc, covered as int, samples as int),
            samples as int,
        ),
        between(r as int, bc as int, fc as int),
        r < 0x100,
{
    assert(bc * bc <= 0xFE01 && fc * fc <= 0xFE01) by (nonlinear_arith)
        requires
            bc < 0x100,
            fc < 0x100,
    ;
    let v = lerp(bc * bc, fc * fc, covered, samples);
    let s = floor_sqrt_ratio(v, samples);
    proof {
        lemma_gamma_channel_is(s as int, bc as int, fc as int, covered as int, samples as int);
        lemma_gamma_channel_between(s as int, bc as int, fc as int, covered as int, samples as int);
    }
    s
}

/// Blends `background` and `foreground` by interpolating each channel
/// linearly at coverage `covered / samples`, truncating the result.
pub fn blend_pixels_naively(background: u32, foreground: u32, covered: u32, samples: u32) -> (c: u32)
    requires
        valid_coverage(covered, samples),
    ensures
        c == blend(BlendStrategy::Naive, background, foreground, covered as int, samples as int),
        is_rgb(c),
        channels_between(c, background, foreground),
{
    let (br, bg, bb) = channels(background);
    let (fr, fg, fb) = channels(foreground);
    let r = blend_channel_naively(br, fr, covered, samples);
    let g = blend_channel_naively(bg, fg, covered, samples);
    let b = blend_channel_naively(bb, fb, covered, samples);
    proof {
        lemma_linear_channel_between(br as int, fr as int, covered as int, samples as int);
        lemma_linear_channel_between(bg as int, fg as int, covered as int, samples as int);
        lemma_linear_channel_between(bb as int, fb as int, covered as int, samples as int);
    }
    pack(r, g, b)
}

/// Blends `background` and `foreground` at coverage `covered / samples` by
/// interpolating the squares of each channel pair and taking the square root
/// of the result, truncated: a cheap gamma correction that keeps edges from
/// looking too dark.
pub fn blend_pixels_gamma_corrected(background: u32, foreground: u32, covered: u32, samples: u32) -> (c: u32)
    requires
        valid_coverage(covered, samples),
    ensures
        c == blend(BlendStrategy::GammaCorrected, background, foreground, covered as int, samples as int),
        gamma_brackets(c, background, foreground, covered as int, samples as int),
        is_rgb(c),
        channels_between(c, background, foreground),
{
    let (br, bg, bb) = channels(background);
    let (fr, fg, fb) = channels(foreground);
    let r = blend_channel_gamma_corrected(br, fr, covered, samples);
    let g = blend_channel_gamma_corrected(bg, fg, covered, samples);
    let b = blend_channel_gamma_corrected(bb, fb, covered, samples);
    pack(r, g, b)
}

impl BlendStrategy {
    /// Combines a background, a foreground and a coverage fraction into one
    /// colour by this strategy.
    pub fn combine(&self, background: u32, foreground: u32, covered: u32, samples: u32) -> (c: u32)
        requires
            valid_coverage(covered, samples),
        ensures
            c == blend(*self, background, foreground, covered as int, samples as int),
            *self == BlendStrategy::GammaCorrected ==> gamma_brackets(
                c,
                background,
                foreground,
                covered as int,
                samples as int,
            ),
            is_rgb(c),
            channels_between(c, background, foreground),
    {
        match self {
            BlendStrategy::Naive => blend_pixels_naively(background, foreground, covered, samples),
            BlendStrategy::GammaCorrected => blend_pixels_gamma_corrected(
                background,
                foreground,
                covered,
                samples,
            ),
        }
    }
}

} // verus!
