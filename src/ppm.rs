//! The binary PPM image format: a text header
//! `P6\n<width> <height> 255\n` followed by one red, green, blue byte triple
//! per pixel, row by row.

use vstd::prelude::*;
use crate::color::{red, green, blue, channels};

verus! {

/// The ASCII bytes of `n` in decimal, without leading zeros.
pub open spec fn decimal(n: nat) -> Seq<u8>
    decreases n,
{
    if n < 10 {
        seq![(0x30 + n) as u8]
    } else {
        decimal(n / 10).push((0x30 + n % 10) as u8)
    }
}

/// The header of a `width * height` image with channels up to 255.
pub open spec fn ppm_header(width: nat, height: nat) -> Seq<u8> {
    seq![0x50u8, 0x36u8, 0x0Au8] + decimal(width) + seq![0x20u8] + decimal(height) + seq![
        0x20u8,
        0x32u8,
        0x35u8,
        0x35u8,
        0x0Au8,
    ]
}

/// Channel `k` (0 red, 1 green, 2 blue) of a packed colour, as a byte.
pub open spec fn channel_byte(c: u32, k: int) -> u8 {
    if k == 0 {
        red(c) as u8
    } else if k == 1 {
        green(c) as u8
    } else {
        blue(c) as u8
    }
}

/// The pixel data: three bytes per pixel, in order.
pub open spec fn ppm_payload(pixels: Seq<u32>) -> Seq<u8> {
    Seq::new(3 * pixels.len(), |j: int| channel_byte(pixels[j / 3], j % 3))
}

/// A whole image file.
pub open spec fn ppm_bytes(pixels: Seq<u32>, width: nat, height: nat) -> Seq<u8> {
    ppm_header(width, height) + ppm_payload(pixels)
}

/// An ASCII decimal digit.
pub open spec fn is_digit(b: u8) -> bool {
    0x30 <= b <= 0x39
}

/// The number of consecutive digits in `s` from index `start` on.
pub open spec fn digit_run(s: Seq<u8>, start: int) -> nat
    decreases s.len() - start,
{
    if 0 <= start < s.len() && is_digit(s[start]) {
        1 + digit_run(s, start + 1)
    } else {
        0
    }
}

/// The value of a sequence of decimal digits.
pub open spec fn digits_value(s: Seq<u8>) -> nat
    decreases s.len(),
{
    if s.len() == 0 {
        0
    } else {
        digits_value(s.drop_last()) * 10 + (s.last() - 0x30) as nat
    }
}

/// What a PPM header says.
#[derive(Clone, Copy, Debug, PartialEq, Eq, Structural)]
pub struct PpmHeader {
    pub width: usize,
    pub height: usize,
    /// Where the pixel data starts.
    pub data_offset: usize,
}

/// The header at the start of `s`, if it has the form
/// `P6\n<width> <height> 255\n` with both numbers in decimal digits and no
/// larger than `usize::MAX`.
pub open spec fn parse_ppm_header(s: Seq<u8>) -> Option<PpmHeader> {
    let a: int = 3 + digit_run(s, 3) as int;
    let b: int = a + 1 + digit_run(s, a + 1);
    let width = digits_value(s.subrange(3, a));
    let height = digits_value(s.subrange(a + 1, b));
    if s.len() >= b + 5 && s.subrange(0, 3) == seq![0x50u8, 0x36u8, 0x0Au8] && a > 3 && s[a]
        == 0x20 && b > a + 1 && s.subrange(b, b + 5) == seq![
        0x20u8,
        0x32u8,
        0x35u8,
        0x35u8,
        0x0Au8,
    ] && width <= usize::MAX && height <= usize::MAX {
        Some(PpmHeader { width: width as usize, height: height as usize, data_offset: (b + 5) as usize })
    } else {
        None
    }
}

/// Every byte of a decimal is a digit, and there is at least one.
pub proof fn lemma_decimal_digits(n: nat)
    ensures
        decimal(n).len() >= 1,
        forall|j: int| 0 <= j < decimal(n).len() ==> is_digit(#[trigger] decimal(n)[j]),
    decreases n,
{
    if n >= 10 {
        lemma_decimal_digits(n / 10);
    }
}

/// Ten to the power `k`.
pub open spec fn pow10(k: nat) -> nat
    decreases k,
{
    if k == 0 {
        1
    } else {
        10 * pow10((k - 1) as nat)
    }
}

/// A number below `10^k` has at most `k` decimal digits.
proof fn lemma_decimal_len(n: nat, k: nat)
    requires
        1 <= k,
        n < pow10(k),
    ensures
        decimal(n).len() <= k,
    decreases n,
{
    if n >= 10 {
        assert(k >= 2) by {
            if k == 1 {
                assert(pow10(1) == 10 * pow10(0));
            }
        }
        assert(n / 10 < pow10((k - 1) as nat));
        lemma_decimal_len(n / 10, (k - 1) as nat);
    }
}

/// Reading back a decimal gives the number.
pub proof fn lemma_decimal_value(n: nat)
    ensures
        digits_value(decimal(n)) == n,
    decreases n,
{
    let d = (0x30 + n % 10) as u8;
    assert(d == 0x30 + n % 10);
    if n >= 10 {
        lemma_decimal_value(n / 10);
        assert(decimal(n).drop_last() =~= decimal(n / 10));
        assert(decimal(n).last() == d);
    } else {
        assert(decimal(n).drop_last() =~= Seq::<u8>::empty());
        assert(decimal(n).last() == d);
        assert(digits_value(Seq::<u8>::empty()) == 0);
    }
}

/// A run of digits that ends before a non-digit has exactly its length.
proof fn lemma_digit_run(s: Seq<u8>, start: int, end: int)
    requires
        0 <= start <= end < s.len(),
        forall|j: int| start <= j < end ==> is_digit(#[trigger] s[j]),
        !is_digit(s[end]),
    ensures
        digit_run(s, start) == end - start,
    decreases end - start,
{
    if start < end {
        lemma_digit_run(s, start + 1, end);
    }
}

/// Extending a run of digits never lowers its value.
proof fn lemma_digits_value_grows(s: Seq<u8>, i: int, j: int)
    requires
        0 <= i <= j <= s.len(),
    ensures
        digits_value(s.subrange(0, i)) <= digits_value(s.subrange(0, j)),
    decreases j - i,
{
    if i < j {
        lemma_digits_value_grows(s, i, j - 1);
        assert(s.subrange(0, j).drop_last() =~= s.subrange(0, j - 1));
    }
}

/// Appends the decimal form of `n`.
fn push_decimal(out: &mut Vec<u8>, n: usize)
    ensures
        final(out)@ == old(out)@ + decimal(n as nat),
    decreases n,
{
    if n >= 10 {
        push_decimal(out, n / 10);
    }
    out.push((0x30 + n % 10) as u8);
    proof {
        if n < 10 {
            assert(old(out)@ + decimal(n as nat) =~= old(out)@.push((0x30 + n % 10) as u8));
        } else {
            assert(old(out)@ + decimal(n as nat) =~= (old(out)@ + decimal((n / 10) as nat)).push(
                (0x30 + n % 10) as u8,
            ));
        }
    }
}

/// Encodes a `width * height` canvas as a binary PPM image: the header, then
/// the red, green and blue bytes of each pixel in row-major order.
pub fn encode_ppm(pixels: &[u32], width: usize, height: usize) -> (bytes: Vec<u8>)
    requires
        pixels@.len() == width * height,
    ensures
        bytes@ == ppm_bytes(pixels@, width as nat, height as nat),
{
    let mut out: Vec<u8> = Vec::new();
    out.push(0x50);
    out.push(0x36);
    out.push(0x0A);
    push_decimal(&mut out, width);
    out.push(0x20);
    push_decimal(&mut out, height);
    out.push(0x20);
    out.push(0x32);
    out.push(0x35);
    out.push(0x35);
    out.push(0x0A);
    let ghost header = out@;
    assert(header =~= ppm_header(width as nat, height as nat));
    let len = pixels.len();
    let mut i: usize = 0;
    while i < len
        invariant
            len == pixels@.len(),
            i <= len,
            header == ppm_header(width as nat, height as nat),
            out@.len() == header.len() + 3 * i,
            out@.subrange(0, header.len() as int) == header,
            forall|j: int|
                0 <= j < 3 * i ==> #[trigger] out@[header.len() + j] == channel_byte(
                    pixels@[j / 3],
                    j % 3,
                ),
        decreases len - i,
    {
        let (r, g, b) = channels(pixels[i]);
        let ghost before = out@;
        out.push(r as u8);
        out.push(g as u8);
        out.push(b as u8);
        assert(out@.subrange(0, header.len() as int) =~= before.subrange(0, header.len() as int));
        assert forall|j: int| 0 <= j < 3 * (i + 1) implies #[trigger] out@[header.len() + j]
            == channel_byte(pixels@[j / 3], j % 3) by {
            if j >= 3 * i {
                vstd::arithmetic::div_mod::lemma_fundamental_div_mod_converse(j, 3, i as int, j - 3 * i);
            }
        }
        i = i + 1;
    }
    proof {
        let full = ppm_bytes(pixels@, width as nat, height as nat);
        assert forall|k: int| 0 <= k < out@.len() implies out@[k] == full[k] by {
            if k < header.len() {
                assert(out@[k] == out@.subrange(0, header.len() as int)[k]);
            } else {
                let j = k - header.len();
                assert(out@[header.len() + j] == channel_byte(pixels@[j / 3], j % 3));
            }
        }
        assert(out@ =~= full);
    }
    out
}

/// Reads the run of digits at `start`: its value and where it ends, or
/// `None` when there is no digit there or the value exceeds `usize::MAX`.
fn read_decimal(s: &[u8], start: usize) -> (r: Option<(usize, usize)>)
    requires
        start <= s@.len(),
    ensures
        ({
            let end = start + digit_run(s@, start as int);
            let value = digits_value(s@.subrange(start as int, end));
            match r {
                Some((v, e)) => e == end && v == value && end > start,
                None => end == start || value > usize::MAX,
            }
        }),
{
    let ghost run = s@.subrange(start as int, s@.len() as int);
    let mut i: usize = start;
    let mut value: usize = 0;
    while i < s.len() && 0x30 <= s[i] && s[i] <= 0x39
        invariant
            start <= i <= s@.len(),
            run == s@.subrange(start as int, s@.len() as int),
            forall|j: int| start <= j < i ==> is_digit(#[trigger] s@[j]),
            value == digits_value(s@.subrange(start as int, i as int)),
        decreases s@.len() - i,
    {
        let d = (s[i] - 0x30) as usize;
        assert(s@.subrange(start as int, i + 1).drop_last() =~= s@.subrange(start as int, i as int));
        match value.checked_mul(10) {
            Some(m) => match m.checked_add(d) {
                Some(v) => {
                    value = v;
                },
                None => {
                    proof {
                        lemma_run_too_long(s@, start as int, i as int + 1);
                    }
                    return None;
                },
            },
            None => {
                proof {
                    lemma_run_too_long(s@, start as int, i as int + 1);
                }
                return None;
            },
        }
        i = i + 1;
    }
    proof {
        if i < s@.len() {
            lemma_digit_run(s@, start as int, i as int);
        } else {
            lemma_digit_run_to_end(s@, start as int);
        }
    }
    if i == start {
        None
    } else {
        Some((value, i))
    }
}

/// A digit run that reaches the end of `s` runs to the end.
proof fn lemma_digit_run_to_end(s: Seq<u8>, start: int)
    requires
        0 <= start <= s.len(),
        forall|j: int| start <= j < s.len() ==> is_digit(#[trigger] s[j]),
    ensures
        digit_run(s, start) == s.len() - start,
    decreases s.len() - start,
{
    if start < s.len() {
        lemma_digit_run_to_end(s, start + 1);
    }
}

/// Once a prefix of a digit run is worth more than `usize::MAX`, so is the
/// whole run.
proof fn lemma_run_too_long(s: Seq<u8>, start: int, i: int)
    requires
        0 <= start < i <= s.len(),
        forall|j: int| start <= j < i ==> is_digit(#[trigger] s[j]),
        digits_value(s.subrange(start, i)) > usize::MAX,
    ensures
        digits_value(s.subrange(start, start + digit_run(s, start))) > usize::MAX,
{
    let end = start + digit_run(s, start);
    lemma_digit_run_at_least(s, start, i);
    let t = s.subrange(start, end);
    lemma_digits_value_grows(t, i - start, end - start);
    assert(t.subrange(0, i - start) =~= s.subrange(start, i));
    assert(t.subrange(0, end - start) =~= t);
}

/// A digit run is at least as long as any run of digits it starts.
proof fn lemma_digit_run_at_least(s: Seq<u8>, start: int, i: int)
    requires
        0 <= start <= i <= s.len(),
        forall|j: int| start <= j < i ==> is_digit(#[trigger] s[j]),
    ensures
        start + digit_run(s, start) >= i,
        start + digit_run(s, start) <= s.len(),
    decreases s.len() - start,
{
    if start < s.len() && is_digit(s[start]) {
        let next = if i > start + 1 {
            i
        } else {
            start + 1
        };
        lemma_digit_run_at_least(s, start + 1, next);
    }
}

/// Reads the header of a binary PPM image of the form
/// `P6\n<width> <height> 255\n`.
pub fn read_ppm_header(bytes: &[u8]) -> (r: Option<PpmHeader>)
    ensures
        r == parse_ppm_header(bytes@),
{
    let ghost s = bytes@;
    let n = bytes.len();
    if n < 3 || bytes[0] != 0x50 || bytes[1] != 0x36 || bytes[2] != 0x0A {
        proof {
            if n >= 3 {
                assert(s.subrange(0, 3)[0] == s[0]);
                assert(s.subrange(0, 3)[1] == s[1]);
                assert(s.subrange(0, 3)[2] == s[2]);
            }
        }
        return None;
    }
    assert(s.subrange(0, 3) =~= seq![0x50u8, 0x36u8, 0x0Au8]);
    proof {
        lemma_digit_run_at_least(s, 3, 3);
    }
    let (width, a) = match read_decimal(bytes, 3) {
        Some(p) => p,
        None => {
            return None;
        },
    };
    if a >= n || bytes[a] != 0x20 {
        return None;
    }
    proof {
        lemma_digit_run_at_least(s, a + 1, a + 1);
    }
    let (height, b) = match read_decimal(bytes, a + 1) {
        Some(p) => p,
        None => {
            return None;
        },
    };
    if n - b < 5 || bytes[b] != 0x20 || bytes[b + 1] != 0x32 || bytes[b + 2] != 0x35 || bytes[b
        + 3] != 0x35 || bytes[b + 4] != 0x0A {
        proof {
            if n - b >= 5 {
                let t = s.subrange(b as int, b + 5);
                assert(t[0] == s[b as int] && t[1] == s[b + 1] && t[2] == s[b + 2] && t[3] == s[b
                    + 3] && t[4] == s[b + 4]);
            }
        }
        return None;
    }
    assert(s.subrange(b as int, b + 5) =~= seq![0x20u8, 0x32u8, 0x35u8, 0x35u8, 0x0Au8]);
    Some(PpmHeader { width, height, data_offset: b + 5 })
}

/// Reading the header of an encoded canvas gives back its width and height,
/// and the pixel data after it is exactly `3 * width * height` bytes long.
pub proof fn lemma_ppm_round_trip(pixels: Seq<u32>, width: usize, height: usize)
    requires
        pixels.len() == width * height,
    ensures
        parse_ppm_header(ppm_bytes(pixels, width as nat, height as nat)) matches Some(h) && h.width
            == width && h.height == height && ppm_bytes(pixels, width as nat, height as nat).len()
            - h.data_offset == 3 * width * height,
{
    let s = ppm_bytes(pixels, width as nat, height as nat);
    let dw = decimal(width as nat);
    let dh = decimal(height as nat);
    lemma_decimal_digits(width as nat);
    lemma_decimal_digits(height as nat);
    lemma_decimal_value(width as nat);
    lemma_decimal_value(height as nat);
    reveal_with_fuel(pow10, 21);
    assert(pow10(20) == 100_000_000_000_000_000_000nat);
    lemma_decimal_len(width as nat, 20);
    lemma_decimal_len(height as nat, 20);
    let a: int = 3 + dw.len() as int;
    let b: int = a + 1 + dh.len();
    assert(s.len() == b + 5 + 3 * pixels.len());
    assert forall|j: int| 3 <= j < a implies is_digit(#[trigger] s[j]) by {
        assert(s[j] == dw[j - 3]);
    }
    assert(s[a as int] == 0x20);
    lemma_digit_run(s, 3, a as int);
    assert forall|j: int| a + 1 <= j < b implies is_digit(#[trigger] s[j]) by {
        assert(s[j] == dh[j - a - 1]);
    }
    assert(s[b as int] == 0x20);
    lemma_digit_run(s, a + 1, b as int);
    assert(s.subrange(3, a as int) =~= dw);
    assert(s.subrange(a + 1, b as int) =~= dh);
    assert(s.subrange(0, 3) =~= seq![0x50u8, 0x36u8, 0x0Au8]);
    assert(s.subrange(b as int, b + 5) =~= seq![0x20u8, 0x32u8, 0x35u8, 0x35u8, 0x0Au8]);
    assert(3 * pixels.len() == 3 * width * height) by (nonlinear_arith)
        requires
            pixels.len() == width * height,
    ;
    assert(digit_run(s, 3) == dw.len());
    assert(digit_run(s, a + 1) == dh.len());
    assert(parse_ppm_header(s) == Some(
        PpmHeader { width, height, data_offset: (b + 5) as usize },
    ));
}

} // verus!
