//! Packed 24-bit colours: `0xRRGGBB` in a `u32`.

use vstd::prelude::*;

verus! {

/// The red channel of a packed colour.
pub open spec fn red(c: u32) -> int {
    (c as int / 0x10000) % 0x100
}

/// The green channel of a packed colour.
pub open spec fn green(c: u32) -> int {
    (c as int / 0x100) % 0x100
}

/// The blue channel of a packed colour.
pub open spec fn blue(c: u32) -> int {
    c as int % 0x100
}

/// The packed colour made of three channels, each in `0..256`.
pub open spec fn rgb(r: int, g: int, b: int) -> int {
    r * 0x10000 + g * 0x100 + b
}

/// A colour whose bits above the 24 channel bits are clear.
pub open spec fn is_rgb(c: u32) -> bool {
    c < 0x100_0000
}

/// Splits a packed colour into its red, green and blue channels.
pub fn channels(c: u32) -> (r: (u32, u32, u32))
    ensures
        r.0 == red(c),
        r.1 == green(c),
        r.2 == blue(c),
{
    let r = (c >> 16) & 0xFF;
    let g = (c >> 8) & 0xFF;
    let b = c & 0xFF;
    assert(r == (c / 0x10000) % 0x100) by (bit_vector)
        requires
            r == (c >> 16) & 0xFF,
    ;
    assert(g == (c / 0x100) % 0x100) by (bit_vector)
        requires
            g == (c >> 8) & 0xFF,
    ;
    assert(b == c % 0x100) by (bit_vector)
        requires
            b == c & 0xFF,
    ;
    (r, g, b)
}

/// Packs three channels into one colour.
pub fn pack(r: u32, g: u32, b: u32) -> (c: u32)
    requires
        r < 0x100,
        g < 0x100,
        b < 0x100,
    ensures
        c == rgb(r as int, g as int, b as int),
        is_rgb(c),
        red(c) == r,
        green(c) == g,
        blue(c) == b,
{
    let c = (r << 16) | (g << 8) | b;
    assert(c == r * 0x10000 + g * 0x100 + b && c < 0x100_0000) by (bit_vector)
        requires
            r < 0x100,
            g < 0x100,
            b < 0x100,
            c == (r << 16) | (g << 8) | b,
    ;
    c
}

} // verus!
