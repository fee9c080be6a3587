//! Circle fillers that classify each pixel by its distance from the canvas
//! centre: solid, hollow (a ring), and antialiased by 3×3 supersampling.
//!
//! All distances are compared exactly in integers: offsets are measured in
//! half pixels (pixel centres) or quarter pixels (subpixel samples), and the
//! radius is scaled to match.

use vstd::prelude::*;
use core::cmp::Ordering;
use crate::canvas::{column, row, lemma_index_coords};
use crate::blend::{BlendStrategy, blend, channels_between, lemma_blend_same_color};

verus! {

/// Twice the signed offset from the middle of a span of `n` pixels to the
/// centre of pixel `i` of it.
pub open spec fn centre_offset(n: int, i: int) -> int {
    n - 2 * i - 1
}

/// Four times the squared distance from the canvas centre to the centre of
/// pixel `(x, y)`.
pub open spec fn centre_dist2(width: int, height: int, x: int, y: int) -> int {
    centre_offset(width, x) * centre_offset(width, x) + centre_offset(height, y) * centre_offset(
        height,
        y,
    )
}

/// The centre of pixel `(x, y)` lies inside or on the circle of radius `r`.
pub open spec fn in_solid_circle(width: int, height: int, r: int, x: int, y: int) -> bool {
    centre_dist2(width, height, x, y) <= 4 * r * r
}

/// The radius of the inner edge of the ring drawn around radius `r`.
pub open spec fn ring_inner(r: int) -> int {
    if r >= 1 {
        r - 1
    } else {
        0
    }
}

/// The centre of pixel `(x, y)` lies within one unit of the circle of radius
/// `r`, edges included.
pub open spec fn on_ring(width: int, height: int, r: int, x: int, y: int) -> bool {
    &&& 4 * ring_inner(r) * ring_inner(r) <= centre_dist2(width, height, x, y)
    &&& centre_dist2(width, height, x, y) <= 4 * (r + 1) * (r + 1)
}

/// Subsamples per axis of the antialiased filler.
pub const AA_RES: usize = 3;

/// Four times the signed offset from the middle of a span of `n` pixels to
/// subsample `s` of pixel `i`, which sits at `i + (s + 1) / 4`.
pub open spec fn sample_offset(n: int, i: int, s: int) -> int {
    2 * n - 4 * i - 1 - s
}

/// Subsample `(sx, sy)` of pixel `(x, y)` lies inside or on the circle of
/// radius `r`.
pub open spec fn sample_inside(width: int, height: int, r: int, x: int, y: int, sx: int, sy: int) -> bool {
    sample_offset(width, x, sx) * sample_offset(width, x, sx) + sample_offset(height, y, sy)
        * sample_offset(height, y, sy) <= 16 * r * r
}

/// How many of the first `n` subsamples of pixel `(x, y)`, taken row by row
/// over the 3×3 grid, lie inside the circle.
pub open spec fn samples_inside(width: int, height: int, r: int, x: int, y: int, n: nat) -> int
    decreases n,
{
    if n == 0 {
        0
    } else {
        let j = n - 1;
        samples_inside(width, height, r, x, y, (n - 1) as nat) + if sample_inside(
            width,
            height,
            r,
            x,
            y,
            j % 3,
            j / 3,
        ) {
            1int
        } else {
            0int
        }
    }
}

/// The number of the nine subsamples of pixel `(x, y)` inside the circle: its
/// coverage is this number out of nine.
pub open spec fn aa_coverage(width: int, height: int, r: int, x: int, y: int) -> int {
    samples_inside(width, height, r, x, y, 9)
}

/// On a canvas whose pixel count fits a `usize`, one side is shorter than
/// `2^32`.
proof fn lemma_short_side(width: int, height: int)
    requires
        0 < width,
        0 < height,
        width * height <= usize::MAX,
    ensures
        width < 0x1_0000_0000 || height < 0x1_0000_0000,
{
    if width >= 0x1_0000_0000 && height >= 0x1_0000_0000 {
        assert(width * height >= 0x1_0000_0000_0000_0000) by (nonlinear_arith)
            requires
                width >= 0x1_0000_0000,
                height >= 0x1_0000_0000,
        ;
    }
}

/// Compares `p² + q²` with `r²`, without overflow.
fn compare_sum_of_squares(p: u128, q: u128, r: u128) -> (o: Ordering)
    requires
        p < 0x8_0000_0000_0000_0000,
        q < 0x8_0000_0000_0000_0000,
        r < 0x8_0000_0000_0000_0000,
        p < 0x8000_0000_0000_0000 || q < 0x8000_0000_0000_0000,
    ensures
        (o == Ordering::Less) == (p * p + q * q < r * r),
        (o == Ordering::Equal) == (p * p + q * q == r * r),
        (o == Ordering::Greater) == (p * p + q * q > r * r),
{
    if p > r || q > r {
        assert(p * p + q * q > r * r) by (nonlinear_arith)
            requires
                p > r || q > r,
        ;
        return Ordering::Greater;
    }
    let (a, b) = if q < 0x8000_0000_0000_0000 {
        (p, q)
    } else {
        (q, p)
    };
    assert(b * b < 0x4000_0000_0000_0000_0000_0000_0000_0000) by (nonlinear_arith)
        requires
            b < 0x8000_0000_0000_0000,
    ;
    let d = r - a;
    let s = r + a;
    assert(d * s == r * r - a * a) by (nonlinear_arith)
        requires
            d == r - a,
            s == r + a,
    ;
    let b2 = b * b;
    match d.checked_mul(s) {
        None => Ordering::Less,
        Some(m) => {
            if b2 < m {
                Ordering::Less
            } else if b2 == m {
                Ordering::Equal
            } else {
                Ordering::Greater
            }
        },
    }
}

/// The size of twice the offset from the middle of a span of `n` pixels to
/// the centre of pixel `i`.
fn centre_offset_size(n: usize, i: usize) -> (d: u128)
    requires
        i < n,
    ensures
        d * d == centre_offset(n as int, i as int) * centre_offset(n as int, i as int),
        d < n,
{
    let twice = 2 * (i as u128) + 1;
    if twice <= n as u128 {
        n as u128 - twice
    } else {
        let d = twice - n as u128;
        assert(d * d == (n - twice) * (n - twice)) by (nonlinear_arith)
            requires
                d == twice - n,
        ;
        d
    }
}

/// The size of four times the offset from the middle of a span of `n`
/// pixels to subsample `s` of pixel `i`.
fn sample_offset_size(n: usize, i: usize, s: usize) -> (d: u128)
    requires
        i < n,
        s < AA_RES,
    ensures
        d * d == sample_offset(n as int, i as int, s as int) * sample_offset(
            n as int,
            i as int,
            s as int,
        ),
        d < 2 * n,
{
    let at = 4 * (i as u128) + 1 + s as u128;
    let span = 2 * (n as u128);
    if at <= span {
        span - at
    } else {
        let d = at - span;
        assert(d * d == (span - at) * (span - at)) by (nonlinear_arith)
            requires
                d == at - span,
        ;
        d
    }
}

/// Fills the canvas with `foreground` where the pixel centre lies inside or on
/// the circle of radius `radius` about the canvas centre, and with
/// `background` elsewhere.
pub fn fill_solid_circle(
    pixels: &mut [u32],
    width: usize,
    height: usize,
    radius: usize,
    foreground: u32,
    background: u32,
)
    requires
        old(pixels)@.len() == width * height,
    ensures
        final(pixels)@.len() == width * height,
        forall|i: int|
            0 <= i < width * height ==> #[trigger] final(pixels)@[i] == if in_solid_circle(
                width as int,
                height as int,
                radius as int,
                column(i, width as int),
                row(i, width as int),
            ) {
                foreground
            } else {
                background
            },
        forall|i: int|
            0 <= i < width * height ==> #[trigger] final(pixels)@[i] == foreground
                || final(pixels)@[i] == background,
{
    let len = pixels.len();
    let mut i: usize = 0;
    while i < len
        invariant
            pixels@.len() == len,
            len == width * height,
            i <= len,
            forall|j: int|
                0 <= j < i ==> #[trigger] pixels@[j] == if in_solid_circle(
                    width as int,
                    height as int,
                    radius as int,
                    column(j, width as int),
                    row(j, width as int),
                ) {
                    foreground
                } else {
                    background
                },
        decreases len - i,
    {
        proof {
            lemma_index_coords(i as int, width as int, height as int);
            lemma_short_side(width as int, height as int);
        }
        let x = i % width;
        let y = i / width;
        let dx = centre_offset_size(width, x);
        let dy = centre_offset_size(height, y);
        let reach = 2 * radius as u128;
        assert(reach * reach == 4 * radius * radius) by (nonlinear_arith)
            requires
                reach == 2 * radius,
        ;
        let inside = match compare_sum_of_squares(dx, dy, reach) {
            Ordering::Greater => false,
            _ => true,
        };
        pixels[i] = if inside {
            foreground
        } else {
            background
        };
        i = i + 1;
    }
}

/// Fills the canvas with `foreground` where the pixel centre lies within one
/// unit of the circle of radius `radius` about the canvas centre (a ring from
/// `max(radius - 1, 0)` to `radius + 1`, edges included), and with
/// `background` elsewhere.
pub fn draw_hollow_circle(
    pixels: &mut [u32],
    width: usize,
    height: usize,
    radius: usize,
    foreground: u32,
    background: u32,
)
    requires
        old(pixels)@.len() == width * height,
    ensures
        final(pixels)@.len() == width * height,
        forall|i: int|
            0 <= i < width * height ==> #[trigger] final(pixels)@[i] == if on_ring(
                width as int,
                height as int,
                radius as int,
                column(i, width as int),
                row(i, width as int),
            ) {
                foreground
            } else {
                background
            },
        forall|i: int|
            0 <= i < width * height ==> #[trigger] final(pixels)@[i] == foreground
                || final(pixels)@[i] == background,
{
    let r_inner: u128 = if radius >= 1 {
        (radius - 1) as u128
    } else {
        0
    };
    let r_outer: u128 = radius as u128 + 1;
    let len = pixels.len();
    let mut i: usize = 0;
    while i < len
        invariant
            pixels@.len() == len,
            len == width * height,
            i <= len,
            r_inner == ring_inner(radius as int),
            r_outer == radius + 1,
            forall|j: int|
                0 <= j < i ==> #[trigger] pixels@[j] == if on_ring(
                    width as int,
                    height as int,
                    radius as int,
                    column(j, width as int),
                    row(j, width as int),
                ) {
                    foreground
                } else {
                    background
                },
        decreases len - i,
    {
        proof {
            lemma_index_coords(i as int, width as int, height as int);
            lemma_short_side(width as int, height as int);
        }
        let x = i % width;
        let y = i / width;
        let dx = centre_offset_size(width, x);
        let dy = centre_offset_size(height, y);
        let inner_reach = 2 * r_inner;
        let outer_reach = 2 * r_outer;
        assert(inner_reach * inner_reach == 4 * r_inner * r_inner) by (nonlinear_arith)
            requires
                inner_reach == 2 * r_inner,
        ;
        assert(outer_reach * outer_reach == 4 * r_outer * r_outer) by (nonlinear_arith)
            requires
                outer_reach == 2 * r_outer,
        ;
        let beyond_inner = match compare_sum_of_squares(dx, dy, inner_reach) {
            Ordering::Less => false,
            _ => true,
        };
        let within_outer = match compare_sum_of_squares(dx, dy, outer_reach) {
            Ordering::Greater => false,
            _ => true,
        };
        pixels[i] = if beyond_inner && within_outer {
            foreground
        } else {
            background
        };
        i = i + 1;
    }
}

/// The number of the nine subsamples of pixel `(x, y)` inside the circle of
/// radius `radius` about the canvas centre.
fn count_samples_inside(width: usize, height: usize, radius: usize, x: usize, y: usize) -> (n: u32)
    requires
        x < width,
        y < height,
        width < 0x1_0000_0000 || height < 0x1_0000_0000,
    ensures
        n == aa_coverage(width as int, height as int, radius as int, x as int, y as int),
        n <= 9,
{
    let reach = 4 * radius as u128;
    let mut count: u32 = 0;
    let mut j: usize = 0;
    while j < AA_RES * AA_RES
        invariant
            x < width,
            y < height,
            width < 0x1_0000_0000 || height < 0x1_0000_0000,
            reach == 4 * radius,
            j <= 9,
            count <= j,
            count == samples_inside(width as int, height as int, radius as int, x as int, y as int, j as nat),
        decreases 9 - j,
    {
        let dx = sample_offset_size(width, x, j % AA_RES);
        let dy = sample_offset_size(height, y, j / AA_RES);
        assert(reach * reach == 16 * radius * radius) by (nonlinear_arith)
            requires
                reach == 4 * radius,
        ;
        match compare_sum_of_squares(dx, dy, reach) {
            Ordering::Greater => {},
            _ => {
                count = count + 1;
            },
        }
        j = j + 1;
    }
    count
}

/// Fills the canvas with an antialiased disc of radius `radius` about the
/// canvas centre: each pixel takes the colour that `strategy` blends from
/// `background` and `foreground` at the fraction of its 3×3 subsamples that
/// lie inside or on the circle.
pub fn fill_solid_aa_circle(
    pixels: &mut [u32],
    width: usize,
    height: usize,
    radius: usize,
    foreground: u32,
    background: u32,
    strategy: BlendStrategy,
)
    requires
        old(pixels)@.len() == width * height,
    ensures
        final(pixels)@.len() == width * height,
        forall|i: int|
            0 <= i < width * height ==> #[trigger] final(pixels)@[i] == blend(
                strategy,
                background,
                foreground,
                aa_coverage(
                    width as int,
                    height as int,
                    radius as int,
                    column(i, width as int),
                    row(i, width as int),
                ),
                9,
            ),
        forall|i: int|
            0 <= i < width * height ==> channels_between(#[trigger] final(pixels)@[i], background, foreground),
        foreground == background ==> forall|i: int|
            0 <= i < width * height ==> #[trigger] final(pixels)@[i] == foreground % 0x100_0000,
{
    let len = pixels.len();
    let mut i: usize = 0;
    while i < len
        invariant
            pixels@.len() == len,
            len == width * height,
            i <= len,
            forall|j: int|
                0 <= j < i ==> #[trigger] pixels@[j] == blend(
                    strategy,
                    background,
                    foreground,
                    aa_coverage(
                        width as int,
                        height as int,
                        radius as int,
                        column(j, width as int),
                        row(j, width as int),
                    ),
                    9,
                ),
            forall|j: int| 0 <= j < i ==> channels_between(#[trigger] pixels@[j], background, foreground),
        decreases len - i,
    {
        proof {
            lemma_index_coords(i as int, width as int, height as int);
            lemma_short_side(width as int, height as int);
        }
        let x = i % width;
        let y = i / width;
        let covered = count_samples_inside(width, height, radius, x, y);
        pixels[i] = strategy.combine(background, foreground, covered, (AA_RES * AA_RES) as u32);
        i = i + 1;
    }
    proof {
        if foreground == background {
            assert forall|i: int| 0 <= i < width * height implies #[trigger] pixels@[i] == foreground
                % 0x100_0000 by {
                lemma_index_coords(i, width as int, height as int);
                let x = column(i, width as int);
                let y = row(i, width as int);
                lemma_coverage_bounded(width as int, height as int, radius as int, x, y, 9);
                lemma_blend_same_color(
                    strategy,
                    foreground,
                    aa_coverage(width as int, height as int, radius as int, x, y),
                    9,
                );
            }
        }
    }
}

/// At most `n` of the first `n` subsamples lie inside.
proof fn lemma_coverage_bounded(width: int, height: int, r: int, x: int, y: int, n: nat)
    ensures
        0 <= samples_inside(width, height, r, x, y, n) <= n,
    decreases n,
{
    if n > 0 {
        lemma_coverage_bounded(width, height, r, x, y, (n - 1) as nat);
    }
}

} // verus!
