//! Deterministic mapping from a tile's value to its display colors.
//!
//! A base color is picked from a fixed four-color palette, cycling every
//! three powers of two, and the color shown is a linear interpolation
//! between that base color and the next one in the palette.

use vstd::prelude::*;

use crate::log_2;
use crate::model::log2_spec;
use crate::model::lemma_log2_mono;
use crate::model::lemma_log2_literals;
use crate::model::value_ok;

verus! {

/// The four palette colors, as red, green and blue channels.
pub open spec fn palette_spec(i: int) -> (int, int, int) {
    if i == 0 {
        (0xFF, 0xD7, 0x00)  // yellow
    } else if i == 1 {
        (0xF5, 0x0A, 0x40)  // magenta
    } else if i == 2 {
        (0x39, 0x49, 0xAB)  // blue
    } else {
        (0x6A, 0x0D, 0xAD)  // purple
    }
}

fn palette_color(i: usize) -> (c: (u8, u8, u8))
    requires
        i < 4,
    ensures
        (c.0 as int, c.1 as int, c.2 as int) == palette_spec(i as int),
{
    if i == 0 {
        (0xFF, 0xD7, 0x00)
    } else if i == 1 {
        (0xF5, 0x0A, 0x40)
    } else if i == 2 {
        (0x39, 0x49, 0xAB)
    } else {
        (0x6A, 0x0D, 0xAD)
    }
}

/// Linear interpolation between channels `c1` and `c2` at fraction `m / 3`,
/// rounded to the nearest integer (ties, which cannot occur, would round up).
pub open spec fn interp_spec(c1: int, c2: int, m: int) -> int {
    (2 * (c1 * (3 - m) + c2 * m) + 3) / 6
}

fn interpolate_component(c1: u8, c2: u8, m: u32) -> (r: u8)
    requires
        m < 3,
    ensures
        r as int == interp_spec(c1 as int, c2 as int, m as int),
{
    let a: u32 = c1 as u32;
    let b: u32 = c2 as u32;
    assert(a * (3 - m) <= 765 && b * m <= 510 && a * (3 - m) + b * m <= 765) by (nonlinear_arith)
        requires
            a <= 255 && b <= 255 && m < 3,
    ;
    let x: u32 = a * (3 - m) + b * m;
    let r: u32 = (2 * x + 3) / 6;
    r as u8
}

/// One uppercase hexadecimal digit.
pub open spec fn hex_digit_spec(d: int) -> char {
    if d == 0 {
        '0'
    } else if d == 1 {
        '1'
    } else if d == 2 {
        '2'
    } else if d == 3 {
        '3'
    } else if d == 4 {
        '4'
    } else if d == 5 {
        '5'
    } else if d == 6 {
        '6'
    } else if d == 7 {
        '7'
    } else if d == 8 {
        '8'
    } else if d == 9 {
        '9'
    } else if d == 10 {
        'A'
    } else if d == 11 {
        'B'
    } else if d == 12 {
        'C'
    } else if d == 13 {
        'D'
    } else if d == 14 {
        'E'
    } else {
        'F'
    }
}

/// A byte as two uppercase hexadecimal digits.
pub open spec fn hex_byte_spec(x: int) -> Seq<char> {
    seq![hex_digit_spec(x / 16), hex_digit_spec(x % 16)]
}

/// An RGB color in the form `#RRGGBB` with uppercase digits.
pub open spec fn hex_rgb_spec(r: int, g: int, b: int) -> Seq<char> {
    seq!['#'] + hex_byte_spec(r) + hex_byte_spec(g) + hex_byte_spec(b)
}

/// Relies on `hex_color::HexColor::rgb` and `HexColor::display_rgb`: the
/// display of an opaque color writes `#` followed by the red, green and blue
/// channels, each as two uppercase hexadecimal digits.
#[verifier::external_body]
fn hex_rgb_string(r: u8, g: u8, b: u8) -> (s: String)
    ensures
        s@ == hex_rgb_spec(r as int, g as int, b as int),
{
    hex_color::HexColor::rgb(r, g, b).display_rgb().to_string()
}

/// The red, green and blue channels assigned to a tile value.
pub open spec fn tile_rgb_spec(v: int) -> (int, int, int) {
    let k = log2_spec(v) - 1;
    let bi = (k / 3) % 4;
    let oi = if bi == 3 {
        0int
    } else {
        bi + 1
    };
    let m = k % 3;
    let c1 = palette_spec(bi);
    let c2 = palette_spec(oi);
    (interp_spec(c1.0, c2.0, m), interp_spec(c1.1, c2.1, m), interp_spec(c1.2, c2.2, m))
}

/// The background color string assigned to a tile value.
pub open spec fn bg_color_spec(v: int) -> Seq<char> {
    let c = tile_rgb_spec(v);
    hex_rgb_spec(c.0, c.1, c.2)
}

/// The text color, a fixed constant irrespective of the background.
pub open spec fn text_color_spec() -> Seq<char> {
    "darkblue"@
}

/// Returns the pair of background and text color for a tile value.
pub fn tile_colors(tile_value: u32) -> (r: (String, String))
    requires
        value_ok(tile_value as int),
    ensures
        r.0@ == bg_color_spec(tile_value as int),
        r.1@ == text_color_spec(),
{
    proof {
        lemma_log2_literals();
        lemma_log2_mono(tile_value as int, 0x8000_0000);
        lemma_log2_mono(2, tile_value as int);
    }
    let k: u32 = log_2(tile_value) - 1;
    let bi: u32 = (k / 3) % 4;
    let oi: u32 = if bi == 3 {
        0
    } else {
        bi + 1
    };
    let m: u32 = k % 3;
    let c1 = palette_color(bi as usize);
    let c2 = palette_color(oi as usize);
    let rr = interpolate_component(c1.0, c2.0, m);
    let gg = interpolate_component(c1.1, c2.1, m);
    let bb = interpolate_component(c1.2, c2.2, m);
    let bg = hex_rgb_string(rr, gg, bb);
    (bg, "darkblue".to_owned())
}

} // verus!
