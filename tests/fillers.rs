use pixel_patterns::blend::BlendStrategy;
use pixel_patterns::circles::{draw_hollow_circle, fill_solid_aa_circle, fill_solid_circle};
use pixel_patterns::midpoint::draw_circle_with_mid_point_algorithm;
use pixel_patterns::patterns::{
    checker_pattern, diagonal_gradient, sine_wave_pattern, stripe_pattern,
};

const WHITE: u32 = 0xFFFFFF;
const BLACK: u32 = 0x000000;

#[test]
fn checker_four_by_four_tile_two() {
    let mut pixels = vec![0x123456u32; 16];
    checker_pattern(&mut pixels, 4, 4, 2, WHITE, BLACK);
    let w = WHITE;
    let b = BLACK;
    let expected = vec![
        w, w, b, b, //
        w, w, b, b, //
        b, b, w, w, //
        b, b, w, w,
    ];
    assert_eq!(pixels, expected);
    for y in 0..4usize {
        for x in 0..4usize {
            let want = if (x / 2 + y / 2) % 2 == 1 { BLACK } else { WHITE };
            assert_eq!(pixels[y * 4 + x], want);
        }
    }
}

#[test]
fn checker_repeats_every_two_tiles() {
    let (w, h, t) = (12usize, 9usize, 3usize);
    let mut pixels = vec![0u32; w * h];
    checker_pattern(&mut pixels, w, h, t, 1, 2);
    for y in 0..h {
        for x in 0..w - 2 * t {
            assert_eq!(pixels[y * w + x], pixels[y * w + x + 2 * t]);
        }
    }
    for y in 0..h - 2 * t {
        for x in 0..w {
            assert_eq!(pixels[y * w + x], pixels[(y + 2 * t) * w + x]);
        }
    }
}

#[test]
fn stripe_small_canvas() {
    let mut pixels = vec![0u32; 8];
    stripe_pattern(&mut pixels, 4, 2, 2, WHITE, BLACK);
    // (x + y) / 2 even -> background, odd -> foreground
    assert_eq!(
        pixels,
        vec![BLACK, BLACK, WHITE, WHITE, BLACK, WHITE, WHITE, BLACK]
    );
}

#[test]
fn stripe_repeats_every_two_tiles() {
    let (w, h, t) = (15usize, 10usize, 2usize);
    let mut pixels = vec![0u32; w * h];
    stripe_pattern(&mut pixels, w, h, t, 5, 6);
    for y in 0..h {
        for x in 0..w - 2 * t {
            assert_eq!(pixels[y * w + x], pixels[y * w + x + 2 * t]);
        }
    }
    for y in 0..h - 2 * t {
        for x in 0..w {
            assert_eq!(pixels[y * w + x], pixels[(y + 2 * t) * w + x]);
        }
    }
    assert!(pixels.iter().all(|&p| p == 5 || p == 6));
}

#[test]
fn gradient_rounds_to_nearest() {
    let mut pixels = vec![0u32; 4];
    diagonal_gradient(&mut pixels, 2, 2, BLACK, WHITE);
    // t = 0, 1/4, 1/4, 1/2 of the way from black to white
    assert_eq!(pixels, vec![0x000000, 0x404040, 0x404040, 0x808080]);
}

#[test]
fn gradient_per_channel() {
    let mut pixels = vec![0u32; 3];
    diagonal_gradient(&mut pixels, 3, 1, 0xFF0010, 0x00FF10);
    // t = 0, 1/4, 1/2: red falls, green rises, blue stays
    assert_eq!(pixels, vec![0xFF0010, 0xBF4010, 0x808010]);
}

#[test]
fn gradient_is_monotonic_along_rows() {
    let (w, h) = (17usize, 5usize);
    let mut pixels = vec![0u32; w * h];
    diagonal_gradient(&mut pixels, w, h, 0x10F020, 0xE00030);
    for y in 0..h {
        for x in 1..w {
            let a = pixels[y * w + x - 1];
            let b = pixels[y * w + x];
            assert!((b >> 16) & 0xFF >= (a >> 16) & 0xFF);
            assert!((b >> 8) & 0xFF <= (a >> 8) & 0xFF);
            assert!(b & 0xFF >= a & 0xFF);
        }
    }
}

#[test]
fn sine_wave_bands() {
    let mut pixels = vec![0u32; 6];
    sine_wave_pattern(&mut pixels, 2, 3, &[0, 12], 0x100, 7);
    assert_eq!(pixels, vec![0x100, 7, 0x101, 7, 0x102, 7]);
}

#[test]
fn sine_wave_negative_position_stops_at_zero() {
    let mut pixels = vec![0u32; 2];
    sine_wave_pattern(&mut pixels, 1, 2, &[-25], 0x100, 7);
    assert_eq!(pixels, vec![0x100, 0x101]);
}

#[test]
fn sine_wave_foreground_wraps() {
    let mut pixels = vec![0u32; 2];
    sine_wave_pattern(&mut pixels, 1, 2, &[0], 0xFFFF_FFFF, 7);
    assert_eq!(pixels, vec![0xFFFF_FFFF, 0]);
}

#[test]
fn solid_circle_small() {
    let mut pixels = vec![0u32; 16];
    fill_solid_circle(&mut pixels, 4, 4, 1, WHITE, BLACK);
    let w = WHITE;
    let b = BLACK;
    assert_eq!(
        pixels,
        vec![b, b, b, b, b, w, w, b, b, w, w, b, b, b, b, b]
    );
}

#[test]
fn solid_circle_radius_zero_and_huge() {
    let mut pixels = vec![0u32; 9];
    fill_solid_circle(&mut pixels, 3, 3, 0, WHITE, BLACK);
    // only the centre pixel's centre is at distance 0
    assert_eq!(painted(&pixels, WHITE), vec![4]);
    fill_solid_circle(&mut pixels, 3, 3, usize::MAX, WHITE, BLACK);
    assert!(pixels.iter().all(|&p| p == WHITE));
}

#[test]
fn hollow_circle_small() {
    let mut pixels = vec![0u32; 16];
    draw_hollow_circle(&mut pixels, 4, 4, 1, WHITE, BLACK);
    let w = WHITE;
    let b = BLACK;
    assert_eq!(
        pixels,
        vec![b, w, w, b, w, w, w, w, w, w, w, w, b, w, w, b]
    );
}

#[test]
fn hollow_circle_leaves_inside_empty() {
    let mut pixels = vec![0u32; 100];
    draw_hollow_circle(&mut pixels, 10, 10, 4, WHITE, BLACK);
    // the centre pixels are 0.5 away from the centre, inside the ring
    assert_eq!(pixels[4 * 10 + 4], BLACK);
    // (0, 4) is 4.5 away: on the ring
    assert_eq!(pixels[4 * 10], WHITE);
    // the corner is far outside
    assert_eq!(pixels[0], BLACK);
}

#[test]
fn aa_circle_naive_coverage() {
    let mut pixels = vec![0u32; 4];
    fill_solid_aa_circle(&mut pixels, 2, 2, 1, WHITE, BLACK, BlendStrategy::Naive);
    // 8 of the 9 samples of each pixel are inside: 255 * 8 / 9, truncated
    assert_eq!(pixels, vec![0xE2E2E2; 4]);
}

#[test]
fn aa_circle_gamma_coverage() {
    let mut pixels = vec![0u32; 4];
    fill_solid_aa_circle(&mut pixels, 2, 2, 1, WHITE, BLACK, BlendStrategy::GammaCorrected);
    // sqrt(255² * 8 / 9) = 240.4
    assert_eq!(pixels, vec![0xF0F0F0; 4]);
}

#[test]
fn aa_circle_same_colours() {
    let mut pixels = vec![0u32; 49];
    for strategy in [BlendStrategy::Naive, BlendStrategy::GammaCorrected] {
        fill_solid_aa_circle(&mut pixels, 7, 7, 2, 0x3C7A19, 0x3C7A19, strategy);
        assert!(pixels.iter().all(|&p| p == 0x3C7A19));
        fill_solid_aa_circle(&mut pixels, 7, 7, 2, 0xAB3C7A19, 0xAB3C7A19, strategy);
        assert!(pixels.iter().all(|&p| p == 0x3C7A19));
    }
}

#[test]
fn aa_circle_full_and_empty() {
    let mut pixels = vec![0u32; 9];
    fill_solid_aa_circle(&mut pixels, 3, 3, 10, 0xFF0000, 0x0000FF, BlendStrategy::Naive);
    assert!(pixels.iter().all(|&p| p == 0xFF0000));
    let mut pixels = vec![0u32; 4];
    fill_solid_aa_circle(&mut pixels, 2, 2, 0, 0xFF0000, 0x0000FF, BlendStrategy::Naive);
    // no sample sits on the centre (1, 1)
    assert!(pixels.iter().all(|&p| p == 0x0000FF));
}

fn painted(pixels: &[u32], colour: u32) -> Vec<usize> {
    (0..pixels.len()).filter(|&i| pixels[i] == colour).collect()
}

#[test]
fn mid_point_outline() {
    let mut pixels = vec![0x55u32; 64];
    draw_circle_with_mid_point_algorithm(&mut pixels, 8, 8, 2, WHITE, BLACK);
    assert_eq!(
        painted(&pixels, WHITE),
        vec![20, 27, 29, 34, 38, 43, 45, 52]
    );
    assert!(pixels.iter().all(|&p| p == WHITE || p == BLACK));
}

#[test]
fn mid_point_half_canvas_radius() {
    let mut pixels = vec![0u32; 36];
    draw_circle_with_mid_point_algorithm(&mut pixels, 6, 6, 3, WHITE, BLACK);
    assert_eq!(
        painted(&pixels, WHITE),
        vec![7, 8, 10, 11, 13, 17, 25, 29, 31, 32, 34, 35]
    );
}

#[test]
fn mid_point_axis_points() {
    let mut pixels = vec![0u32; 16];
    draw_circle_with_mid_point_algorithm(&mut pixels, 4, 4, 1, WHITE, BLACK);
    // (2, 1), (1, 2), (3, 2) and (2, 3) around the centre (2, 2)
    assert_eq!(painted(&pixels, WHITE), vec![6, 9, 11, 14]);
}

#[test]
fn mid_point_odd_width() {
    let mut pixels = vec![0u32; 25];
    draw_circle_with_mid_point_algorithm(&mut pixels, 5, 5, 2, WHITE, BLACK);
    assert_eq!(
        painted(&pixels, WHITE),
        vec![2, 6, 8, 10, 14, 16, 18, 22]
    );
}

fn is_quarter_turn_symmetric(pixels: &[u32], w: usize, colour: u32) -> bool {
    let c = w / 2;
    (0..pixels.len()).filter(|&i| pixels[i] == colour).all(|i| {
        let (x, y) = (i % w, i / w);
        2 * c >= y && 2 * c - y < w && pixels[x * w + (2 * c - y)] == colour
    })
}

#[test]
fn mid_point_quarter_turn_symmetric() {
    for w in 0..40usize {
        let mut pixels = vec![0u32; w * w];
        draw_circle_with_mid_point_algorithm(&mut pixels, w, w, w / 2, WHITE, BLACK);
        assert!(is_quarter_turn_symmetric(&pixels, w, WHITE), "width {}", w);
        for r in [0usize, 1, 3, w / 3] {
            draw_circle_with_mid_point_algorithm(&mut pixels, w, w, r, WHITE, BLACK);
            assert!(is_quarter_turn_symmetric(&pixels, w, WHITE), "width {} radius {}", w, r);
        }
    }
}

#[test]
fn mid_point_outline_band() {
    let (w, r) = (64usize, 20i64);
    let mut pixels = vec![0u32; w * w];
    draw_circle_with_mid_point_algorithm(&mut pixels, w, w, r as usize, WHITE, BLACK);
    let c = (w / 2) as i64;
    for i in painted(&pixels, WHITE) {
        let dx = (i % w) as i64 - c;
        let dy = (i / w) as i64 - c;
        let d = dx * dx + dy * dy;
        assert!((r - 1) * (r - 1) < d && d <= r * r);
    }
}

#[test]
fn mid_point_small_canvases() {
    let mut pixels = vec![9u32; 4];
    draw_circle_with_mid_point_algorithm(&mut pixels, 2, 2, 1, WHITE, BLACK);
    assert_eq!(pixels, vec![BLACK; 4]);
    let mut one = vec![9u32; 1];
    draw_circle_with_mid_point_algorithm(&mut one, 1, 1, 0, WHITE, BLACK);
    assert_eq!(one, vec![WHITE]);
    let mut none: Vec<u32> = Vec::new();
    draw_circle_with_mid_point_algorithm(&mut none, 0, 0, 0, WHITE, BLACK);
    assert!(none.is_empty());
}

#[test]
fn empty_canvases() {
    let mut none: Vec<u32> = Vec::new();
    stripe_pattern(&mut none, 0, 5, 1, WHITE, BLACK);
    checker_pattern(&mut none, 5, 0, 1, WHITE, BLACK);
    diagonal_gradient(&mut none, 0, 0, WHITE, BLACK);
    sine_wave_pattern(&mut none, 0, 3, &[], WHITE, BLACK);
    fill_solid_circle(&mut none, 0, 4, 2, WHITE, BLACK);
    draw_hollow_circle(&mut none, 4, 0, 2, WHITE, BLACK);
    fill_solid_aa_circle(&mut none, 0, 0, 2, WHITE, BLACK, BlendStrategy::Naive);
    assert!(none.is_empty());
}

#[test]
fn wide_single_row_gradient_ends() {
    let mut pixels = vec![0u32; 1000];
    diagonal_gradient(&mut pixels, 1000, 1, 0x000000, 0x0000FF);
    assert_eq!(pixels[0], 0);
    // t = 999 / 1001 of 255 = 254.49, rounds to 254
    assert_eq!(pixels[999], 254);
}
