//! Pictures that show what the checks of the full scan are for.

use vstd::prelude::*;

use crate::vision::edges;

verus! {

/// Which picture.
#[derive(Debug, Clone, Copy, PartialEq, Eq, Structural)]
pub enum Demo {
    /// A broad band of dense columns beside a single line.
    Band,
    /// A line of the same strength throughout beside one that varies.
    Uniform,
}

/// Width and height of a picture.
pub open spec fn demo_size(which: Demo) -> (u32, u32) {
    match which {
        Demo::Band => (400, 300),
        Demo::Uniform => (300, 300),
    }
}

/// The gray value at `(x, y)`.
pub open spec fn demo_gray(which: Demo, x: int, y: int) -> u8 {
    match which {
        Demo::Band => if x == 300 || 60 <= x < 180 && x % 2 == 0 {
            255
        } else {
            0
        },
        Demo::Uniform => if x == 100 {
            200
        } else if x == 200 && y % 2 == 0 {
            210
        } else if x == 200 {
            10
        } else {
            0
        },
    }
}

fn gray_at(which: Demo, x: u32, y: u32) -> (v: u8)
    ensures
        v == demo_gray(which, x as int, y as int),
{
    match which {
        Demo::Band => if x == 300 || 60 <= x && x < 180 && x % 2 == 0 {
            255
        } else {
            0
        },
        Demo::Uniform => if x == 100 {
            200
        } else if x == 200 && y % 2 == 0 {
            210
        } else if x == 200 {
            10
        } else {
            0
        },
    }
}

/// The gray values of a picture row by row, its width and its height.
pub fn demo_picture(which: Demo) -> (r: (Vec<u8>, u32, u32))
    ensures
        (r.1, r.2) == demo_size(which),
        r.0@.len() == r.1 * r.2,
        forall|x: int, y: int|
            0 <= x < r.1 && 0 <= y < r.2 ==> #[trigger] edges::picture(r.0@, r.1, r.2).px(x, y)
                == demo_gray(which, x, y),
{
    let (width, height): (u32, u32) = match which {
        Demo::Band => (400, 300),
        Demo::Uniform => (300, 300),
    };
    let mut gray: Vec<u8> = Vec::new();
    let mut i: u32 = 0;
    while i < width * height
        invariant
            (width, height) == demo_size(which),
            i <= width * height,
            gray@.len() == i,
            forall|k: int|
                0 <= k < i ==> #[trigger] gray@[k] == demo_gray(
                    which,
                    k % (width as int),
                    k / (width as int),
                ),
        decreases width * height - i,
    {
        gray.push(gray_at(which, i % width, i / width));
        i = i + 1;
    }
    assert forall|x: int, y: int| 0 <= x < width && 0 <= y < height implies #[trigger] edges::picture(
        gray@,
        width,
        height,
    ).px(x, y) == demo_gray(which, x, y) by {
        let w = width as int;
        assert(0 <= y * w + x < w * height && (y * w + x) % w == x && (y * w + x) / w == y)
            by (nonlinear_arith)
            requires
                0 <= x < w,
                0 <= y < height,
        ;
        assert(gray@[y * w + x] == demo_gray(which, x, y));
    }
    (gray, width, height)
}

/// The picture of the band has a lone white column with nothing but black within a hundred pixels of
/// it, and a band in which every other one of 120 columns is white. In that of the two lines, the
/// first has the same gray value all along, and the second alternates.
pub proof fn pictures_show_what_they_are_for(x: int, y: int)
    ensures
        demo_gray(Demo::Band, 300, y) == 255,
        180 <= x < 400 && x != 300 ==> demo_gray(Demo::Band, x, y) == 0,
        60 <= x < 180 ==> (demo_gray(Demo::Band, x, y) == 255 <==> x % 2 == 0),
        60 <= x < 179 ==> (demo_gray(Demo::Band, x, y) == 0 <==> demo_gray(Demo::Band, x + 1, y)
            == 255),
        0 <= x < 60 ==> demo_gray(Demo::Band, x, y) == 0,
        demo_gray(Demo::Uniform, 100, y) == 200,
        demo_gray(Demo::Uniform, 200, y) != demo_gray(Demo::Uniform, 200, y + 1),
        demo_gray(Demo::Uniform, 200, y) == demo_gray(Demo::Uniform, 200, y + 2),
        demo_gray(Demo::Uniform, 200, y) + demo_gray(Demo::Uniform, 200, y + 1) == 220,
        x != 100 && x != 200 ==> demo_gray(Demo::Uniform, x, y) == 0,
{
}

} // verus!
