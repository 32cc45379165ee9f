//! What counts as an edge pixel.

use vstd::prelude::*;

verus! {

/// Least difference between two adjacent gray values that counts as an edge. It is taken from the
/// raw capture: a blur would wash out the one-pixel, low-contrast borders that dividers are drawn
/// with, while background noise stays within one unit.
pub const DIVIDER_RAW_DIFF_THRESHOLD: i32 = 8;

/// Direction of a line.
#[derive(Debug, Clone, Copy, PartialEq, Eq, Structural)]
pub enum Orientation {
    /// A vertical line: a step between horizontally adjacent pixels.
    Vertical,
    /// A horizontal line: a step between vertically adjacent pixels.
    Horizontal,
}

/// A grayscale picture, row by row. `width * height` gray values are expected to be there.
pub struct Picture {
    pub gray: Seq<u8>,
    pub width: u32,
    pub height: u32,
}

impl Picture {
    /// Every pixel within the bounds has a gray value.
    pub open spec fn complete(self) -> bool {
        self.width * self.height <= self.gray.len()
    }

    /// The gray value at `(x, y)`.
    pub open spec fn px(self, x: int, y: int) -> int {
        self.gray[y * self.width + x] as int
    }

    /// Size of the step into `(x, y)`: from the left for a vertical line, from above for a
    /// horizontal one.
    pub open spec fn step(self, x: int, y: int, orientation: Orientation) -> int {
        match orientation {
            Orientation::Vertical => distance(self.px(x, y), self.px(x - 1, y)),
            Orientation::Horizontal => distance(self.px(x, y), self.px(x, y - 1)),
        }
    }

    /// Whether `(x, y)` has a predecessor across a line of `orientation`.
    pub open spec fn has_step(self, x: int, y: int, orientation: Orientation) -> bool {
        &&& 0 <= x < signed(self.width)
        &&& 0 <= y < signed(self.height)
        &&& match orientation {
            Orientation::Vertical => x > 0,
            Orientation::Horizontal => y > 0,
        }
    }

    /// Whether `(x, y)` is an edge pixel of a line of `orientation`.
    pub open spec fn edge(self, x: int, y: int, orientation: Orientation) -> bool {
        self.has_step(x, y, orientation) && self.step(x, y, orientation)
            >= DIVIDER_RAW_DIFF_THRESHOLD
    }
}

/// The picture that a gray buffer and its dimensions describe.
pub open spec fn picture(gray: Seq<u8>, img_w: u32, img_h: u32) -> Picture {
    Picture { gray, width: img_w, height: img_h }
}

/// Whether every pixel within the bounds has a gray value.
pub fn is_complete(gray: &[u8], img_w: u32, img_h: u32) -> (r: bool)
    ensures
        r == picture(gray@, img_w, img_h).complete(),
{
    assert(0 <= img_w * img_h <= 0xffff_ffff * 0xffff_ffff) by (nonlinear_arith)
        requires
            0 <= img_w <= 0xffff_ffff,
            0 <= img_h <= 0xffff_ffff,
    ;
    assert(gray@.len() == gray.len());
    img_w as u128 * img_h as u128 <= gray.len() as u128
}

/// The distance of two integers.
pub open spec fn distance(a: int, b: int) -> int {
    if a >= b {
        a - b
    } else {
        b - a
    }
}

/// A dimension read as a signed 32-bit number: past `i32::MAX` it wraps to a negative one, so that
/// no coordinate is below it.
pub open spec fn signed(dim: u32) -> int {
    if dim <= 0x7fff_ffff {
        dim as int
    } else {
        dim - 0x1_0000_0000
    }
}

/// Computes [`signed`].
pub(crate) fn as_signed(dim: u32) -> (r: i32)
    ensures
        r == signed(dim),
{
    if dim <= 0x7fff_ffff {
        dim as i32
    } else {
        -1 - ((0xffff_ffff - dim) as i32)
    }
}

/// A pixel within the bounds has an index within the buffer.
pub(crate) proof fn lemma_index(p: Picture, x: int, y: int)
    requires
        p.complete(),
        0 <= x < p.width,
        0 <= y < p.height,
    ensures
        0 <= y * p.width + x < p.gray.len(),
        0 <= y * p.width,
{
    assert(y * p.width + x < p.width * p.height && 0 <= y * p.width) by (nonlinear_arith)
        requires
            0 <= x < p.width,
            0 <= y < p.height,
    ;
}

/// The gray value at `(x, y)`.
pub(crate) fn pixel(gray: &[u8], img_w: u32, img_h: u32, x: u32, y: u32) -> (v: i32)
    requires
        picture(gray@, img_w, img_h).complete(),
        x < img_w,
        y < img_h,
    ensures
        v == picture(gray@, img_w, img_h).px(x as int, y as int),
        0 <= v <= 255,
{
    proof {
        lemma_index(picture(gray@, img_w, img_h), x as int, y as int);
        assert(gray@.len() == gray.len());
    }
    gray[y as usize * img_w as usize + x as usize] as i32
}

/// Size of the step into `(x, y)` across a line of `orientation`.
pub(crate) fn step_size(
    gray: &[u8],
    img_w: u32,
    img_h: u32,
    x: u32,
    y: u32,
    orientation: Orientation,
) -> (d: i32)
    requires
        picture(gray@, img_w, img_h).complete(),
        x < img_w,
        y < img_h,
        orientation is Vertical ==> x > 0,
        orientation is Horizontal ==> y > 0,
    ensures
        d == picture(gray@, img_w, img_h).step(x as int, y as int, orientation),
        0 <= d <= 255,
{
    let here: i32 = pixel(gray, img_w, img_h, x, y);
    let before: i32 = match orientation {
        Orientation::Vertical => pixel(gray, img_w, img_h, x - 1, y),
        Orientation::Horizontal => pixel(gray, img_w, img_h, x, y - 1),
    };
    if here >= before {
        here - before
    } else {
        before - here
    }
}

/// Whether there is a strong step at `(x, y)`: between `x - 1` and `x` for a vertical line, between
/// `y - 1` and `y` for a horizontal one. Nothing outside the picture is an edge.
pub fn is_edge_pixel(
    gray: &[u8],
    img_w: u32,
    img_h: u32,
    x: i32,
    y: i32,
    orientation: Orientation,
) -> (r: bool)
    requires
        picture(gray@, img_w, img_h).complete(),
    ensures
        r == picture(gray@, img_w, img_h).edge(x as int, y as int, orientation),
{
    if x < 0 || y < 0 || x >= as_signed(img_w) || y >= as_signed(img_h) {
        return false;
    }
    let inner: bool = match orientation {
        Orientation::Vertical => x > 0,
        Orientation::Horizontal => y > 0,
    };
    inner && step_size(gray, img_w, img_h, x as u32, y as u32, orientation)
        >= DIVIDER_RAW_DIFF_THRESHOLD
}

} // verus!
