use vstd::prelude::*;

use crate::coord::Coord;

verus! {

/// How quickly light fades with distance from the viewer.
pub const DIM_COEF: i64 = 32;

/// Brightest and dimmest intensity a visible cell is drawn with.
pub const INTENSITY_MAX: u8 = 255;

pub const INTENSITY_MIN: u8 = 127;

/// The intensity of a cell at offset `(dx, dy)` from the viewer: inversely
/// proportional to one more than the squared distance, within the two
/// bounds.
pub open spec fn spec_intensity(dx: int, dy: int) -> int {
    let raw = (INTENSITY_MAX as int * DIM_COEF) / (dx * dx + dy * dy + 1);
    if raw > INTENSITY_MAX as int {
        INTENSITY_MAX as int
    } else if raw < INTENSITY_MIN as int {
        INTENSITY_MIN as int
    } else {
        raw
    }
}

/// The intensity with which a visible cell at offset `delta` from the
/// viewer is drawn.
pub fn delta_to_intensity(delta: Coord) -> (r: u8)
    ensures
        r == spec_intensity(delta.x as int, delta.y as int),
{
    let dx = delta.x as i64;
    let dy = delta.y as i64;
    assert(0 <= dx * dx <= 0x4000_0000_0000_0000) by (nonlinear_arith)
        requires
            -0x8000_0000 <= dx <= 0x8000_0000,
    ;
    assert(0 <= dy * dy <= 0x4000_0000_0000_0000) by (nonlinear_arith)
        requires
            -0x8000_0000 <= dy <= 0x8000_0000,
    ;
    let length_squared: u128 = (dx * dx) as u128 + (dy * dy) as u128;
    let intensity: u128 = (INTENSITY_MAX as u128 * DIM_COEF as u128) / (length_squared + 1);
    if intensity > INTENSITY_MAX as u128 {
        INTENSITY_MAX
    } else if intensity < INTENSITY_MIN as u128 {
        INTENSITY_MIN
    } else {
        intensity as u8
    }
}

} // verus!
