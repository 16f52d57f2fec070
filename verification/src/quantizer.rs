//! Two-level quantizer: maps an 8-bit sample to the nearer of 0 and 255.

use vstd::prelude::*;

verus! {

/// The palette level nearest to `s`: samples below 128 map to 0, the rest
/// to 255 (rounding `s / 255` half away from zero picks 255 exactly when
/// `s >= 127.5`, i.e. `s >= 128` on integer input).
pub open spec fn quantize_spec(s: u8) -> u8 {
    if s >= 128 {
        255u8
    } else {
        0u8
    }
}

/// Map one 8-bit sample to the nearest of the two output levels 0 and 255.
pub fn find_nearest_1bit_grayscale(oldpixel: u8) -> (r: u8)
    ensures
        r == quantize_spec(oldpixel),
{
    if oldpixel >= 128 {
        255
    } else {
        0
    }
}

/// Quantize the three channels of a color pixel independently.
pub fn find_nearest_1bit_color(oldpixel: [u8; 3]) -> (r: [u8; 3])
    ensures
        forall|i: int| 0 <= i < 3 ==> r@[i] == quantize_spec(oldpixel@[i]),
{
    let new_pixel = [
        find_nearest_1bit_grayscale(oldpixel[0]),
        find_nearest_1bit_grayscale(oldpixel[1]),
        find_nearest_1bit_grayscale(oldpixel[2]),
    ];
    new_pixel
}

} // verus!
