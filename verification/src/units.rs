//! Screen coordinates as integers.
//!
//! Positions and sizes on the screen are counted in subpixels, which are small enough for the
//! corners and the centers of all cells of the grid to have integer coordinates. Sums of them end at
//! the bounds of the type.

use vstd::prelude::*;

verus! {

/// Subpixels to a pixel. A screen is divided by 25 across and by 9 down, and cells are halved.
pub const SUBPIXELS: i64 = 450;

/// A position or a size of `px` whole pixels.
pub fn from_px(px: i32) -> (s: i64)
    ensures
        s == px * SUBPIXELS,
{
    px as i64 * SUBPIXELS
}

/// `v`, or the end of the range of coordinates that it lies beyond.
pub open spec fn sat(v: int) -> i64 {
    if v > i64::MAX {
        i64::MAX
    } else if v < i64::MIN {
        i64::MIN
    } else {
        v as i64
    }
}

/// The sum of two coordinates.
pub fn plus(a: i64, b: i64) -> (r: i64)
    ensures
        r == sat(a + b),
{
    let sum: i128 = a as i128 + b as i128;
    if sum > i64::MAX as i128 {
        i64::MAX
    } else if sum < i64::MIN as i128 {
        i64::MIN
    } else {
        sum as i64
    }
}

/// The difference of two coordinates.
pub fn minus(a: i64, b: i64) -> (r: i64)
    ensures
        r == sat(a - b),
{
    let difference: i128 = a as i128 - b as i128;
    if difference > i64::MAX as i128 {
        i64::MAX
    } else if difference < i64::MIN as i128 {
        i64::MIN
    } else {
        difference as i64
    }
}

/// Half of a coordinate, rounded down.
pub fn half(v: i64) -> (r: i64)
    ensures
        r == v as int / 2,
{
    if v >= 0 {
        v / 2
    } else {
        -((-(v + 1)) / 2) - 1
    }
}

/// The whole pixels of a coordinate, rounded towards zero.
pub open spec fn whole(v: int) -> int {
    if v >= 0 {
        v / (SUBPIXELS as int)
    } else {
        -((-v) / (SUBPIXELS as int))
    }
}

/// The pixel that a coordinate lies in, as far as the type reaches.
pub open spec fn pixel(v: i64) -> i32 {
    if whole(v as int) > i32::MAX {
        i32::MAX
    } else if whole(v as int) < i32::MIN {
        i32::MIN
    } else {
        whole(v as int) as i32
    }
}

/// The pixel that a coordinate lies in, from zero and as far as the type reaches.
pub open spec fn screen_pixel(v: i64) -> u32 {
    if whole(v as int) > u32::MAX {
        u32::MAX
    } else if v < 0 {
        0
    } else {
        whole(v as int) as u32
    }
}

fn whole_of(v: i64) -> (r: i64)
    ensures
        r == whole(v as int),
{
    if v >= 0 {
        v / SUBPIXELS
    } else if v == i64::MIN {
        -20496382304121724
    } else {
        -((-v) / SUBPIXELS)
    }
}

/// The pixel that a coordinate lies in.
pub fn to_pixel(v: i64) -> (p: i32)
    ensures
        p == pixel(v),
{
    let w: i64 = whole_of(v);
    if w > i32::MAX as i64 {
        i32::MAX
    } else if w < i32::MIN as i64 {
        i32::MIN
    } else {
        w as i32
    }
}

/// The pixel that a coordinate lies in, from zero.
pub fn to_screen_pixel(v: i64) -> (p: u32)
    ensures
        p == screen_pixel(v),
{
    if v < 0 {
        return 0;
    }
    let w: i64 = whole_of(v);
    if w > u32::MAX as i64 {
        u32::MAX
    } else {
        w as u32
    }
}

/// Whole pixels survive the way to subpixels and back.
pub proof fn pixels_round_trip(px: i32)
    ensures
        pixel((px * SUBPIXELS) as i64) == px,
        px >= 0 ==> screen_pixel((px * SUBPIXELS) as i64) == px,
{
}

/// A pixel holds the 450 subpixels from its own position on; where coordinates are negative, they count
/// the other way round, so that the pixel of the opposite position is the opposite one.
pub proof fn pixels_hold_their_subpixels(v: i64)
    requires
        -0x8000_0000 * 450 < v < 0x8000_0000 * 450,
    ensures
        v >= 0 ==> 450 * pixel(v) <= v < 450 * (pixel(v) + 1),
        v < 0 ==> 450 * (pixel(v) - 1) < v <= 450 * pixel(v),
        pixel((-v) as i64) == -pixel(v),
        v >= 0 ==> screen_pixel(v) == pixel(v),
        v < 0 ==> screen_pixel(v) == 0,
{
}

/// Sums of coordinates are exact, as far as there are such coordinates.
pub proof fn sums_are_exact_in_range(v: int)
    ensures
        i64::MIN <= v <= i64::MAX ==> sat(v) == v,
        v > i64::MAX ==> sat(v) == i64::MAX,
        v < i64::MIN ==> sat(v) == i64::MIN,
{
}

} // verus!
