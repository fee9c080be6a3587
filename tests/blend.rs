use pixel_patterns::blend::{blend_pixels_gamma_corrected, blend_pixels_naively, lerp, BlendStrategy};

#[test]
fn gamma_half_coverage_is_brighter_than_naive() {
    let gamma = blend_pixels_gamma_corrected(0x000000, 0xFFFFFF, 1, 2);
    let naive = blend_pixels_naively(0x000000, 0xFFFFFF, 1, 2);
    assert_eq!(gamma, 0xB4B4B4); // 180 per channel
    assert_eq!(naive, 0x7F7F7F); // 127 per channel
    assert!(gamma & 0xFF > naive & 0xFF);
}

#[test]
fn blend_ends_of_coverage() {
    for s in [BlendStrategy::Naive, BlendStrategy::GammaCorrected] {
        assert_eq!(s.combine(0x102030, 0xA0B0C0, 0, 9), 0x102030);
        assert_eq!(s.combine(0x102030, 0xA0B0C0, 9, 9), 0xA0B0C0);
    }
}

#[test]
fn blend_same_colour_any_coverage() {
    for s in [BlendStrategy::Naive, BlendStrategy::GammaCorrected] {
        for k in 0..=9 {
            assert_eq!(s.combine(0x7F1E99, 0x7F1E99, k, 9), 0x7F1E99);
        }
    }
}

#[test]
fn blend_ignores_high_byte() {
    assert_eq!(blend_pixels_naively(0xFF000000, 0xFF0000FF, 1, 1), 0x0000FF);
}

#[test]
fn blend_per_channel_values() {
    // red 0 -> 90, green 200 -> 20, blue 30 -> 30 at coverage 1/3
    assert_eq!(blend_pixels_naively(0x00C81E, 0x5A141E, 1, 3), 0x1E8C1E);
    // sqrt((0 * 2 + 8100) / 3) = 51.96, sqrt((40000 * 2 + 400) / 3) = 163.7
    assert_eq!(blend_pixels_gamma_corrected(0x00C81E, 0x5A141E, 1, 3), 0x33A31E);
}

#[test]
fn lerp_is_scaled() {
    assert_eq!(lerp(10, 100, 1, 3), 10 * 2 + 100);
    assert_eq!(lerp(0, 65535, 9, 9), 65535 * 9);
}
