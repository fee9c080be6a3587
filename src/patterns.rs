//! Pattern fillers that colour every pixel by a rule on its position:
//! diagonal stripes, a checkerboard, a diagonal gradient and a sine wave.

use vstd::prelude::*;
use crate::canvas::{column, row, lemma_index_coords};
use crate::color::{red, green, blue, rgb, channels, pack};
use crate::blend::{lerp_scaled, between};

verus! {

/// The stripe colour of pixel `(x, y)`: diagonal bands `tile_size` wide,
/// `background` in even bands and `foreground` in odd ones.
pub open spec fn stripe_color(x: int, y: int, tile_size: int, foreground: u32, background: u32) -> u32 {
    if ((x + y) / tile_size) % 2 == 0 {
        background
    } else {
        foreground
    }
}

/// The checkerboard colour of pixel `(x, y)`: square tiles `tile_size`
/// wide, `background` where the tile coordinates sum to an odd number and
/// `foreground` elsewhere.
pub open spec fn checker_color(x: int, y: int, tile_size: int, foreground: u32, background: u32) -> u32 {
    if (x / tile_size + y / tile_size) % 2 == 1 {
        background
    } else {
        foreground
    }
}

/// `num / den` rounded to the nearest integer, halves rounded up.
pub open spec fn round_div(num: int, den: int) -> int {
    (2 * num + den) / (2 * den)
}

/// One gradient channel at diagonal position `n` of `d`: the interpolation
/// from `start` to `end` at `t = n / d`, rounded to the nearest integer.
pub open spec fn gradient_channel(start: int, end: int, n: int, d: int) -> int {
    round_div(lerp_scaled(start, end, n, d), d)
}

/// The gradient colour of pixel `(x, y)` of a `width * height` canvas: each
/// channel interpolated from `foreground` at the top-left corner towards
/// `background` at `t = (x + y) / (width + height)`.
pub open spec fn gradient_color(x: int, y: int, width: int, height: int, foreground: u32, background: u32) -> int {
    rgb(
        gradient_channel(red(foreground), red(background), x + y, width + height),
        gradient_channel(green(foreground), green(background), x + y, width + height),
        gradient_channel(blue(foreground), blue(background), x + y, width + height),
    )
}

/// The band position of row `y` shifted by `offset`, as an unsigned pixel
/// count: below zero it stops at zero, above `usize::MAX` at `usize::MAX`.
pub open spec fn wave_position(y: int, offset: int) -> int {
    if y + offset < 0 {
        0
    } else if y + offset > usize::MAX {
        usize::MAX as int
    } else {
        y + offset
    }
}

/// The sine-wave colour of pixel `(x, y)` given its column's offset:
/// `foreground + y` (wrapping) in the first half of each 20-pixel band,
/// `background` in the second.
pub open spec fn sine_wave_color(y: int, offset: int, foreground: u32, background: u32) -> int {
    if wave_position(y, offset) % 20 < 10 {
        (foreground + y) % 0x1_0000_0000
    } else {
        background as int
    }
}

/// Fills the canvas with diagonal stripes: pixel `(x, y)` is `background`
/// where `(x + y) / tile_size` is even and `foreground` where it is odd.
pub fn stripe_pattern(
    pixels: &mut [u32],
    width: usize,
    height: usize,
    tile_size: usize,
    foreground: u32,
    background: u32,
)
    requires
        old(pixels)@.len() == width * height,
        tile_size > 0,
    ensures
        final(pixels)@.len() == width * height,
        forall|i: int|
            0 <= i < width * height ==> #[trigger] final(pixels)@[i] == stripe_color(
                column(i, width as int),
                row(i, width as int),
                tile_size as int,
                foreground,
                background,
            ),
        forall|i: int|
            0 <= i < width * height ==> #[trigger] final(pixels)@[i] == foreground
                || final(pixels)@[i] == background,
{
    let len = pixels.len();
    let mut i: usize = 0;
    while i < len
        invariant
            pixels@.len() == len,
            len == width * height,
            i <= len,
            tile_size > 0,
            forall|j: int|
                0 <= j < i ==> #[trigger] pixels@[j] == stripe_color(
                    column(j, width as int),
                    row(j, width as int),
                    tile_size as int,
                    foreground,
                    background,
                ),
        decreases len - i,
    {
        proof {
            lemma_index_coords(i as int, width as int, height as int);
        }
        let x = i % width;
        let y = i / width;
        let band = (x as u128 + y as u128) / tile_size as u128;
        pixels[i] = if band % 2 == 0 {
            background
        } else {
            foreground
        };
        i = i + 1;
    }
}

/// Fills the canvas with a checkerboard of `tile_size`-wide squares: pixel
/// `(x, y)` is `background` where `x / tile_size + y / tile_size` is odd and
/// `foreground` where it is even.
pub fn checker_pattern(
    pixels: &mut [u32],
    width: usize,
    height: usize,
    tile_size: usize,
    foreground: u32,
    background: u32,
)
    requires
        old(pixels)@.len() == width * height,
        tile_size > 0,
    ensures
        final(pixels)@.len() == width * height,
        forall|i: int|
            0 <= i < width * height ==> #[trigger] final(pixels)@[i] == checker_color(
                column(i, width as int),
                row(i, width as int),
                tile_size as int,
                foreground,
                background,
            ),
        forall|i: int|
            0 <= i < width * height ==> #[trigger] final(pixels)@[i] == foreground
                || final(pixels)@[i] == background,
{
    let len = pixels.len();
    let mut i: usize = 0;
    while i < len
        invariant
            pixels@.len() == len,
            len == width * height,
            i <= len,
            tile_size > 0,
            forall|j: int|
                0 <= j < i ==> #[trigger] pixels@[j] == checker_color(
                    column(j, width as int),
                    row(j, width as int),
                    tile_size as int,
                    foreground,
                    background,
                ),
        decreases len - i,
    {
        proof {
            lemma_index_coords(i as int, width as int, height as int);
        }
        let x = i % width;
        let y = i / width;
        let tiles = (x / tile_size) as u128 + (y / tile_size) as u128;
        pixels[i] = if tiles % 2 == 1 {
            background
        } else {
            foreground
        };
        i = i + 1;
    }
}

/// A rounded interpolation moves from its start towards its end as the
/// position grows.
proof fn lemma_gradient_channel_monotonic(start: int, end: int, n1: int, n2: int, d: int)
    requires
        0 <= n1 <= n2 <= d,
        0 < d,
    ensures
        start <= end ==> gradient_channel(start, end, n1, d) <= gradient_channel(start, end, n2, d),
        end <= start ==> gradient_channel(start, end, n2, d) <= gradient_channel(start, end, n1, d),
{
    let v1 = lerp_scaled(start, end, n1, d);
    let v2 = lerp_scaled(start, end, n2, d);
    assert(start <= end ==> v1 <= v2) by (nonlinear_arith)
        requires
            0 <= n1 <= n2 <= d,
            v1 == start * (d - n1) + end * n1,
            v2 == start * (d - n2) + end * n2,
    ;
    assert(end <= start ==> v2 <= v1) by (nonlinear_arith)
        requires
            0 <= n1 <= n2 <= d,
            v1 == start * (d - n1) + end * n1,
            v2 == start * (d - n2) + end * n2,
    ;
    if start <= end {
        vstd::arithmetic::div_mod::lemma_div_is_ordered(2 * v1 + d, 2 * v2 + d, 2 * d);
    } else {
        vstd::arithmetic::div_mod::lemma_div_is_ordered(2 * v2 + d, 2 * v1 + d, 2 * d);
    }
}

/// A gradient channel lies between its start and its end.
proof fn lemma_gradient_channel_between(start: int, end: int, n: int, d: int)
    requires
        0 <= n <= d,
        0 < d,
    ensures
        between(gradient_channel(start, end, n, d), start, end),
{
    lemma_gradient_channel_monotonic(start, end, 0, n, d);
    lemma_gradient_channel_monotonic(start, end, n, d, d);
    assert(lerp_scaled(start, end, 0, d) == d * start) by (nonlinear_arith);
    assert(lerp_scaled(start, end, d, d) == d * end) by (nonlinear_arith);
    assert(round_div(d * start, d) == start) by (nonlinear_arith)
        requires
            0 < d,
    {
        vstd::arithmetic::div_mod::lemma_fundamental_div_mod_converse(2 * (d * start) + d, 2 * d, start, d);
    }
    assert(round_div(d * end, d) == end) by (nonlinear_arith)
        requires
            0 < d,
    {
        vstd::arithmetic::div_mod::lemma_fundamental_div_mod_converse(2 * (d * end) + d, 2 * d, end, d);
    }
}

/// One gradient channel, computed exactly.
fn gradient_channel_at(start: u32, end: u32, n: u128, d: u128) -> (c: u32)
    requires
        start < 0x100,
        end < 0x100,
        n < d,
        d <= 0x2_0000_0000_0000_0000,
    ensures
        c == gradient_channel(start as int, end as int, n as int, d as int),
        between(c as int, start as int, end as int),
{
    assert(start * (d - n) <= 0xFF * d && end * n <= 0xFF * d) by (nonlinear_arith)
        requires
            start < 0x100,
            end < 0x100,
            n < d,
    ;
    let num = start as u128 * (d - n) + end as u128 * n;
    proof {
        lemma_gradient_channel_between(start as int, end as int, n as int, d as int);
    }
    ((2 * num + d) / (2 * d)) as u32
}

/// Fills the canvas with a diagonal gradient: each channel of pixel `(x, y)`
/// is interpolated from `foreground` towards `background` at
/// `t = (x + y) / (width + height)` and rounded to the nearest integer.
pub fn diagonal_gradient(pixels: &mut [u32], width: usize, height: usize, foreground: u32, background: u32)
    requires
        old(pixels)@.len() == width * height,
    ensures
        final(pixels)@.len() == width * height,
        forall|i: int|
            0 <= i < width * height ==> #[trigger] final(pixels)@[i] == gradient_color(
                column(i, width as int),
                row(i, width as int),
                width as int,
                height as int,
                foreground,
                background,
            ),
        forall|i: int|
            0 <= i < width * height ==> {
                let c = #[trigger] final(pixels)@[i];
                let n = column(i, width as int) + row(i, width as int);
                let d = width + height;
                &&& red(c) == gradient_channel(red(foreground), red(background), n, d)
                &&& green(c) == gradient_channel(green(foreground), green(background), n, d)
                &&& blue(c) == gradient_channel(blue(foreground), blue(background), n, d)
                &&& between(red(c), red(foreground), red(background))
                &&& between(green(c), green(foreground), green(background))
                &&& between(blue(c), blue(foreground), blue(background))
            },
{
    let (r0, g0, b0) = channels(foreground);
    let (r1, g1, b1) = channels(background);
    let d = width as u128 + height as u128;
    let len = pixels.len();
    let mut i: usize = 0;
    while i < len
        invariant
            pixels@.len() == len,
            len == width * height,
            i <= len,
            d == width + height,
            r0 == red(foreground),
            g0 == green(foreground),
            b0 == blue(foreground),
            r1 == red(background),
            g1 == green(background),
            b1 == blue(background),
            forall|j: int|
                0 <= j < i ==> #[trigger] pixels@[j] == gradient_color(
                    column(j, width as int),
                    row(j, width as int),
                    width as int,
                    height as int,
                    foreground,
                    background,
                ),
            forall|j: int|
                0 <= j < i ==> {
                    let c = #[trigger] pixels@[j];
                    let n = column(j, width as int) + row(j, width as int);
                    let d = width + height;
                    &&& red(c) == gradient_channel(red(foreground), red(background), n, d)
                    &&& green(c) == gradient_channel(green(foreground), green(background), n, d)
                    &&& blue(c) == gradient_channel(blue(foreground), blue(background), n, d)
                    &&& between(red(c), red(foreground), red(background))
                    &&& between(green(c), green(foreground), green(background))
                    &&& between(blue(c), blue(foreground), blue(background))
                },
        decreases len - i,
    {
        proof {
            lemma_index_coords(i as int, width as int, height as int);
        }
        let x = i % width;
        let y = i / width;
        let n = x as u128 + y as u128;
        let r = gradient_channel_at(r0, r1, n, d);
        let g = gradient_channel_at(g0, g1, n, d);
        let b = gradient_channel_at(b0, b1, n, d);
        pixels[i] = pack(r, g, b);
        i = i + 1;
    }
}

/// Fills the canvas with a horizontal sine wave of 20-pixel bands. Column
/// `x` is shifted by `column_offsets[x]`, the wave's height there in whole
/// pixels rounded down; pixel `(x, y)` is `foreground + y` (wrapping, so a
/// large `y` spills into the other channels) where the shifted position,
/// stopped at zero, falls in the first half of a band, and `background`
/// elsewhere.
pub fn sine_wave_pattern(
    pixels: &mut [u32],
    width: usize,
    height: usize,
    column_offsets: &[i64],
    foreground: u32,
    background: u32,
)
    requires
        old(pixels)@.len() == width * height,
        column_offsets@.len() == width,
    ensures
        final(pixels)@.len() == width * height,
        forall|i: int|
            0 <= i < width * height ==> #[trigger] final(pixels)@[i] == sine_wave_color(
                row(i, width as int),
                column_offsets@[column(i, width as int)] as int,
                foreground,
                background,
            ),
{
    let len = pixels.len();
    let mut i: usize = 0;
    while i < len
        invariant
            pixels@.len() == len,
            len == width * height,
            column_offsets@.len() == width,
            i <= len,
            forall|j: int|
                0 <= j < i ==> #[trigger] pixels@[j] == sine_wave_color(
                    row(j, width as int),
                    column_offsets@[column(j, width as int)] as int,
                    foreground,
                    background,
                ),
        decreases len - i,
    {
        proof {
            lemma_index_coords(i as int, width as int, height as int);
        }
        let x = i % width;
        let y = i / width;
        let shifted = y as i128 + column_offsets[x] as i128;
        let position: usize = if shifted < 0 {
            0
        } else if shifted > usize::MAX as i128 {
            usize::MAX
        } else {
            shifted as usize
        };
        pixels[i] = if position % 20 < 10 {
            foreground.wrapping_add((y as u64 % 0x1_0000_0000) as u32)
        } else {
            background
        };
        i = i + 1;
    }
}

/// Stripes repeat every `2 * tile_size` pixels along either axis.
pub proof fn lemma_stripe_periodic(x: int, y: int, tile_size: int, foreground: u32, background: u32)
    requires
        0 <= x,
        0 <= y,
        0 < tile_size,
    ensures
        stripe_color(x + 2 * tile_size, y, tile_size, foreground, background) == stripe_color(
            x,
            y,
            tile_size,
            foreground,
            background,
        ),
        stripe_color(x, y + 2 * tile_size, tile_size, foreground, background) == stripe_color(
            x,
            y,
            tile_size,
            foreground,
            background,
        ),
{
    lemma_div_shift_two(x + y, tile_size);
    assert(x + 2 * tile_size + y == x + y + 2 * tile_size);
    assert(x + (y + 2 * tile_size) == x + y + 2 * tile_size);
}

/// The checkerboard repeats every `2 * tile_size` pixels along either axis.
pub proof fn lemma_checker_periodic(x: int, y: int, tile_size: int, foreground: u32, background: u32)
    requires
        0 <= x,
        0 <= y,
        0 < tile_size,
    ensures
        checker_color(x + 2 * tile_size, y, tile_size, foreground, background) == checker_color(
            x,
            y,
            tile_size,
            foreground,
            background,
        ),
        checker_color(x, y + 2 * tile_size, tile_size, foreground, background) == checker_color(
            x,
            y,
            tile_size,
            foreground,
            background,
        ),
{
    lemma_div_shift_two(x, tile_size);
    lemma_div_shift_two(y, tile_size);
}

/// Adding two tiles to a position adds two to its tile number.
proof fn lemma_div_shift_two(n: int, tile_size: int)
    requires
        0 <= n,
        0 < tile_size,
    ensures
        (n + 2 * tile_size) / tile_size == n / tile_size + 2,
{
    vstd::arithmetic::div_mod::lemma_fundamental_div_mod(n, tile_size);
    let q = n / tile_size;
    assert(n + 2 * tile_size == (q + 2) * tile_size + n % tile_size) by (nonlinear_arith)
        requires
            n == tile_size * q + n % tile_size,
    ;
    vstd::arithmetic::div_mod::lemma_fundamental_div_mod_converse(
        n + 2 * tile_size,
        tile_size,
        n / tile_size + 2,
        n % tile_size,
    );
}

/// Along a row the gradient never runs backwards: as `x` grows,
/// `t = (x + y) / (width + height)` does not decrease, so each channel moves
/// from its start value (the foreground's) towards its end value (the
/// background's) and never back.
pub proof fn lemma_gradient_monotonic(
    start: int,
    end: int,
    x1: int,
    x2: int,
    y: int,
    width: int,
    height: int,
)
    requires
        0 <= x1 <= x2 < width,
        0 <= y < height,
    ensures
        start <= end ==> gradient_channel(start, end, x1 + y, width + height) <= gradient_channel(
            start,
            end,
            x2 + y,
            width + height,
        ),
        end <= start ==> gradient_channel(start, end, x2 + y, width + height) <= gradient_channel(
            start,
            end,
            x1 + y,
            width + height,
        ),
{
    lemma_gradient_channel_monotonic(start, end, x1 + y, x2 + y, width + height);
}

} // verus!
