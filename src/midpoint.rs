//! The incremental (midpoint) circle rasterizer: traces one octant of a circle
//! outline with integer steps and paints the other seven by reflection.

use vstd::prelude::*;
use crate::canvas::{column, row, lemma_index_coords};

verus! {

/// The `y` offset of the tracer once `x` has advanced to `k`: it starts at
/// the radius and drops by one whenever `x² + y² > r²` after a step.
pub open spec fn mid_point_y(r: int, k: nat) -> int
    decreases k,
{
    if k == 0 {
        r
    } else {
        let y = mid_point_y(r, (k - 1) as nat);
        if k * k + y * y > r * r {
            y - 1
        } else {
            y
        }
    }
}

/// The tracer paints at step `k`: the loop runs while `x <= y`.
pub open spec fn mid_point_visits(r: int, k: nat) -> bool {
    k <= mid_point_y(r, k)
}

/// Pixel `(px, py)` is one of the eight reflections of the octant offset
/// `(x, y)` about the centre `(c, c)`: across both axes and both diagonals.
pub open spec fn reflected_hit(c: int, x: int, y: int, px: int, py: int) -> bool {
    ||| (px == c + x || px == c - x) && (py == c + y || py == c - y)
    ||| (px == c + y || px == c - y) && (py == c + x || py == c - x)
}

/// Step `k` of the tracer on a `w`-wide square canvas paints pixel
/// `(px, py)`: the step runs, its octant point `(w / 2 + k, w / 2 + y)` lies
/// on the canvas, and `(px, py)` is one of its reflections.
pub open spec fn mid_point_marks(w: int, r: int, k: nat, px: int, py: int) -> bool {
    let c = w / 2;
    let y = mid_point_y(r, k);
    &&& mid_point_visits(r, k)
    &&& c + k < w
    &&& c + y < w
    &&& reflected_hit(c, k as int, y, px, py)
}

/// One of the first `n` steps paints pixel `(px, py)`.
pub open spec fn mid_point_painted_by(w: int, r: int, n: nat, px: int, py: int) -> bool
    decreases n,
{
    n > 0 && (mid_point_painted_by(w, r, (n - 1) as nat, px, py) || mid_point_marks(
        w,
        r,
        (n - 1) as nat,
        px,
        py,
    ))
}

/// The rasterizer paints pixel `(px, py)`: no step after `r` runs.
pub open spec fn mid_point_painted(w: int, r: nat, px: int, py: int) -> bool {
    mid_point_painted_by(w, r as int, r + 1, px, py)
}

/// The tracer's `y` never grows.
pub proof fn lemma_mid_point_y_non_increasing(r: int, j: nat, k: nat)
    requires
        j <= k,
    ensures
        mid_point_y(r, k) <= mid_point_y(r, j),
    decreases k - j,
{
    if j < k {
        lemma_mid_point_y_non_increasing(r, j, (k - 1) as nat);
    }
}

/// Steps that paint nothing leave the painted set as it was.
proof fn lemma_painted_by_unchanged(w: int, r: int, m: nat, n: nat, px: int, py: int)
    requires
        m <= n,
        forall|k: nat| m <= k < n ==> !#[trigger] mid_point_marks(w, r, k, px, py),
    ensures
        mid_point_painted_by(w, r, n, px, py) == mid_point_painted_by(w, r, m, px, py),
    decreases n - m,
{
    if m < n {
        lemma_painted_by_unchanged(w, r, m, (n - 1) as nat, px, py);
    }
}

/// Writes `color` at pixel `(px, py)` of a `width`-wide square canvas.
fn put_pixel(pixels: &mut [u32], width: usize, px: usize, py: usize, color: u32)
    requires
        old(pixels)@.len() == width * width,
        px < width,
        py < width,
    ensures
        final(pixels)@.len() == old(pixels)@.len(),
        forall|i: int|
            0 <= i < width * width ==> #[trigger] final(pixels)@[i] == if column(i, width as int)
                == px && row(i, width as int) == py {
                color
            } else {
                old(pixels)@[i]
            },
{
    let ghost w = width as int;
    assert(pixels.len() == w * w);
    assert(py * w + px < w * w) by (nonlinear_arith)
        requires
            px < w,
            py < w,
    ;
    let ghost before = pixels@;
    pixels[py * width + px] = color;
    assert forall|i: int| 0 <= i < w * w implies #[trigger] pixels@[i] == if column(i, w) == px
        && row(i, w) == py {
        color
    } else {
        before[i]
    } by {
        lemma_index_coords(i, w, w);
        if i == py * w + px {
            vstd::arithmetic::div_mod::lemma_fundamental_div_mod_converse(i, w, py as int, px as int);
        }
    }
}

/// Paints the eight reflections of the octant offset `(x, y)` about the
/// centre `(c, c)` of a square canvas in `color`.
fn paint_reflections(pixels: &mut [u32], width: usize, c: usize, x: usize, y: usize, color: u32)
    requires
        old(pixels)@.len() == width * width,
        x <= c,
        y <= c,
        c + x < width,
        c + y < width,
    ensures
        final(pixels)@.len() == old(pixels)@.len(),
        forall|i: int|
            0 <= i < width * width ==> #[trigger] final(pixels)@[i] == if reflected_hit(
                c as int,
                x as int,
                y as int,
                column(i, width as int),
                row(i, width as int),
            ) {
                color
            } else {
                old(pixels)@[i]
            },
{
    put_pixel(pixels, width, c + x, c + y, color);
    put_pixel(pixels, width, c + y, c + x, color);
    put_pixel(pixels, width, c + x, c - y, color);
    put_pixel(pixels, width, c + y, c - x, color);
    put_pixel(pixels, width, c - x, c + y, color);
    put_pixel(pixels, width, c - y, c + x, color);
    put_pixel(pixels, width, c - x, c - y, color);
    put_pixel(pixels, width, c - y, c - x, color);
}

/// Clears a square canvas to `background` and draws the outline of a circle of
/// radius `radius` centred at `(width / 2, width / 2)` in `foreground`, by the
/// integer midpoint algorithm: starting at the offset `(0, radius)`, each step
/// advances `x` and decrements `y` when `x² + y² > radius²`, until `x > y`;
/// each octant point that lies on the canvas is painted with its seven
/// reflections across both axes and both diagonals.
///
/// Each reflection is written at `row * width + column` of its own
/// coordinates, so it lands exactly on the mirrored pixel: deriving the
/// left-half reflections by subtracting from a flat row-major index instead
/// would put them one row off.
pub fn draw_circle_with_mid_point_algorithm(
    pixels: &mut [u32],
    width: usize,
    height: usize,
    radius: usize,
    foreground: u32,
    background: u32,
)
    requires
        width == height,
        old(pixels)@.len() == width * height,
        radius <= isize::MAX,
    ensures
        final(pixels)@.len() == width * height,
        forall|i: int|
            0 <= i < width * height ==> #[trigger] final(pixels)@[i] == if mid_point_painted(
                width as int,
                radius as nat,
                column(i, width as int),
                row(i, width as int),
            ) {
                foreground
            } else {
                background
            },
        forall|i: int|
            0 <= i < width * height ==> #[trigger] final(pixels)@[i] == foreground
                || final(pixels)@[i] == background,
{
    let len = pixels.len();
    let mut i: usize = 0;
    while i < len
        invariant
            pixels@.len() == len,
            i <= len,
            forall|j: int| 0 <= j < i ==> #[trigger] pixels@[j] == background,
        decreases len - i,
    {
        pixels[i] = background;
        i = i + 1;
    }

    let ghost w = width as int;
    let ghost r = radius as int;
    assert(r * r <= 0x4000_0000_0000_0000_0000_0000_0000_0000) by (nonlinear_arith)
        requires
            0 <= r <= 0x7FFF_FFFF_FFFF_FFFF,
    ;
    let c: usize = width / 2;
    let r2: i128 = radius as i128 * radius as i128;
    let mut x: i128 = 0;
    let mut y: i128 = radius as i128;
    while x <= y
        invariant
            w == width,
            r == radius,
            width == height,
            pixels@.len() == w * w,
            radius <= isize::MAX,
            c == w / 2,
            r2 == r * r,
            0 <= x <= r + 1,
            y == mid_point_y(r, x as nat),
            -1 <= y <= r,
            forall|i: int|
                0 <= i < w * w ==> #[trigger] pixels@[i] == if mid_point_painted_by(
                    w,
                    r,
                    x as nat,
                    column(i, w),
                    row(i, w),
                ) {
                    foreground
                } else {
                    background
                },
        decreases r + 1 - x,
    {
        let ghost k = x as nat;
        let ghost before = pixels@;
        if x + (c as i128) < width as i128 && y + (c as i128) < width as i128 {
            paint_reflections(pixels, width, c, x as usize, y as usize, foreground);
        }
        assert forall|i: int| 0 <= i < w * w implies #[trigger] pixels@[i] == if mid_point_painted_by(
            w,
            r,
            (k + 1) as nat,
            column(i, w),
            row(i, w),
        ) {
            foreground
        } else {
            background
        } by {
            if !mid_point_marks(w, r, k, column(i, w), row(i, w)) {
                assert(pixels@[i] == before[i]);
            }
        }
        proof {
            lemma_mid_point_y_non_increasing(r, 0, k + 1);
        }
        x = x + 1;
        assert(x * x + y * y < 0x8000_0000_0000_0000_0000_0000_0000_0000) by (nonlinear_arith)
            requires
                1 <= x <= 0x8000_0000_0000_0000,
                -1 <= y <= 0x7FFF_FFFF_FFFF_FFFF,
        ;
        if x * x + y * y > r2 {
            y = y - 1;
        }
    }
    proof {
        let n = x as nat;
        assert forall|i: int| 0 <= i < w * w implies mid_point_painted_by(
            w,
            r,
            (r + 1) as nat,
            column(i, w),
            row(i, w),
        ) == mid_point_painted_by(w, r, n, column(i, w), row(i, w)) by {
            assert forall|k: nat| n <= k < r + 1 implies !#[trigger] mid_point_marks(
                w,
                r,
                k,
                column(i, w),
                row(i, w),
            ) by {
                lemma_mid_point_y_non_increasing(r, n, k);
            }
            lemma_painted_by_unchanged(w, r, n, (r + 1) as nat, column(i, w), row(i, w));
        }
    }
}

/// Every pixel that a step paints lies on the canvas, and so does its
/// quarter turn about the centre, which that step paints too.
proof fn lemma_marks_quarter_turn(w: int, r: int, k: nat, px: int, py: int)
    requires
        0 <= w,
        mid_point_marks(w, r, k, px, py),
    ensures
        0 <= px < w,
        0 <= py < w,
        0 <= 2 * (w / 2) - py < w,
        mid_point_marks(w, r, k, 2 * (w / 2) - py, px),
{
}

/// The painted set is closed under a quarter turn about the centre
/// `(w / 2, w / 2)`: `(px, py)` goes to `(2 * (w / 2) - py, px)`.
proof fn lemma_painted_by_quarter_turn(w: int, r: int, n: nat, px: int, py: int)
    requires
        0 <= w,
        mid_point_painted_by(w, r, n, px, py),
    ensures
        0 <= px < w,
        0 <= py < w,
        0 <= 2 * (w / 2) - py < w,
        mid_point_painted_by(w, r, n, 2 * (w / 2) - py, px),
    decreases n,
{
    if mid_point_painted_by(w, r, (n - 1) as nat, px, py) {
        lemma_painted_by_quarter_turn(w, r, (n - 1) as nat, px, py);
    } else {
        lemma_marks_quarter_turn(w, r, (n - 1) as nat, px, py);
    }
}

/// On any square canvas and for any radius, the outline that
/// `draw_circle_with_mid_point_algorithm` paints is unchanged by a quarter
/// turn about the centre `(c, c)`, `c = width / 2`: each painted pixel
/// `(px, py)` lies on the canvas, and so does `(2c - py, px)`, which is
/// painted too. In particular this holds for the radius `width / 2`.
pub proof fn lemma_mid_point_quarter_turn(width: int, radius: nat, px: int, py: int)
    requires
        0 <= width,
        mid_point_painted(width, radius, px, py),
    ensures
        0 <= px < width,
        0 <= py < width,
        0 <= 2 * (width / 2) - py < width,
        mid_point_painted(width, radius, 2 * (width / 2) - py, px),
{
    lemma_painted_by_quarter_turn(width, radius as int, radius + 1, px, py);
}

/// Every point the tracer visits lies in the band `((r - 1)², r²]` of
/// squared distances from the centre.
proof fn lemma_mid_point_y_band(r: int, k: nat)
    requires
        r >= 1,
        mid_point_visits(r, k),
    ensures
        (r - 1) * (r - 1) < k * k + mid_point_y(r, k) * mid_point_y(r, k) <= r * r,
    decreases k,
{
    if k > 0 {
        let j = (k - 1) as nat;
        let y0 = mid_point_y(r, j);
        lemma_mid_point_y_non_increasing(r, j, k);
        lemma_mid_point_y_non_increasing(r, 0, j);
        lemma_mid_point_y_band(r, j);
        let y = mid_point_y(r, k);
        assert((r - 1) * (r - 1) < k * k + y * y <= r * r) by (nonlinear_arith)
            requires
                k >= 1,
                k <= y,
                y0 <= r,
                (r - 1) * (r - 1) < (k - 1) * (k - 1) + y0 * y0 <= r * r,
                k * k + y0 * y0 > r * r ==> y == y0 - 1,
                k * k + y0 * y0 <= r * r ==> y == y0,
        ;
    } else {
        assert((r - 1) * (r - 1) < r * r) by (nonlinear_arith)
            requires
                r >= 1,
        ;
    }
}

/// Every pixel that one of the first `n` steps paints lies in the band of
/// squared distances `((r - 1)², r²]` from the centre `(w / 2, w / 2)`.
proof fn lemma_painted_by_band(w: int, r: int, n: nat, px: int, py: int)
    requires
        r >= 1,
        mid_point_painted_by(w, r, n, px, py),
    ensures
        (r - 1) * (r - 1) < (px - w / 2) * (px - w / 2) + (py - w / 2) * (py - w / 2) <= r * r,
    decreases n,
{
    let j = (n - 1) as nat;
    if mid_point_painted_by(w, r, j, px, py) {
        lemma_painted_by_band(w, r, j, px, py);
    } else {
        let y = mid_point_y(r, j);
        lemma_mid_point_y_band(r, j);
        let a = px - w / 2;
        let b = py - w / 2;
        assert(a * a + b * b == j * j + y * y) by (nonlinear_arith)
            requires
                (a == j || a == -j) && (b == y || b == -y) || (a == y || a == -y) && (b == j
                    || b == -j),
        ;
    }
}

/// The outline that `draw_circle_with_mid_point_algorithm` paints for a
/// radius of at least one hugs the circle: each painted pixel `(px, py)`
/// has a squared distance from the centre `(width / 2, width / 2)` above
/// `(radius - 1)²` and at most `radius²`.
pub proof fn lemma_mid_point_outline_band(width: int, radius: nat, px: int, py: int)
    requires
        radius >= 1,
        mid_point_painted(width, radius, px, py),
    ensures
        (radius - 1) * (radius - 1) < (px - width / 2) * (px - width / 2) + (py - width / 2) * (py
            - width / 2) <= radius * radius,
{
    lemma_painted_by_band(width, radius as int, radius + 1, px, py);
}

/// A pixel painted by one of the first `m` steps stays painted after more.
proof fn lemma_painted_by_grows(w: int, r: int, m: nat, n: nat, px: int, py: int)
    requires
        m <= n,
        mid_point_painted_by(w, r, m, px, py),
    ensures
        mid_point_painted_by(w, r, n, px, py),
    decreases n - m,
{
    if m < n {
        lemma_painted_by_grows(w, r, m, (n - 1) as nat, px, py);
    }
}

/// When the circle fits on the canvas on the right and below, its four axis
/// points `(c ± radius, c)` and `(c, c ± radius)`, `c = width / 2`, are
/// painted.
pub proof fn lemma_mid_point_axis_points(width: int, radius: nat)
    requires
        width / 2 + radius < width,
    ensures
        ({
            let c = width / 2;
            &&& mid_point_painted(width, radius, c + radius, c)
            &&& mid_point_painted(width, radius, c - radius, c)
            &&& mid_point_painted(width, radius, c, c + radius)
            &&& mid_point_painted(width, radius, c, c - radius)
        }),
{
    let c = width / 2;
    let r = radius as int;
    reveal_with_fuel(mid_point_painted_by, 2);
    assert(mid_point_y(r, 0) == r);
    assert(mid_point_marks(width, r, 0, c + r, c));
    assert(mid_point_marks(width, r, 0, c - r, c));
    assert(mid_point_marks(width, r, 0, c, c + r));
    assert(mid_point_marks(width, r, 0, c, c - r));
    lemma_painted_by_grows(width, r, 1, radius + 1, c + r, c);
    lemma_painted_by_grows(width, r, 1, radius + 1, c - r, c);
    lemma_painted_by_grows(width, r, 1, radius + 1, c, c + r);
    lemma_painted_by_grows(width, r, 1, radius + 1, c, c - r);
}

} // verus!
