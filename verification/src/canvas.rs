//! Pictures in color, to draw on.

use vstd::prelude::*;

use crate::vision::dividers::Region;

verus! {

/// Red, green, blue and opacity.
pub type Rgba = (u8, u8, u8, u8);

/// The rows of a picture, from the top.
pub type Pixels = Seq<Seq<Rgba>>;

/// A picture in color: an `image::RgbaImage`. What it shows is told by [`pixels`].
#[verifier::external_body]
pub struct Canvas {
    image: image::RgbaImage,
}

/// What a canvas shows.
pub uninterp spec fn pixels(canvas: Canvas) -> Seq<Seq<(u8, u8, u8, u8)>>;

/// Whether a picture has that size.
pub open spec fn sized(p: Pixels, width: int, height: int) -> bool {
    &&& p.len() == height
    &&& forall|y: int| 0 <= y < p.len() ==> (#[trigger] p[y]).len() == width
}

/// A picture of a single color.
pub open spec fn uniform(width: nat, height: nat, c: Rgba) -> Pixels {
    Seq::new(height, |y: int| Seq::new(width, |x: int| c))
}

/// A picture with a color wherever `covers` holds of the column and the row.
pub open spec fn painted(p: Pixels, covers: spec_fn(int, int) -> bool, c: Rgba) -> Pixels {
    Seq::new(
        p.len(),
        |y: int|
            Seq::new(
                p[y].len(),
                |x: int|
                    if covers(x, y) {
                        c
                    } else {
                        p[y][x]
                    },
            ),
    )
}

/// A picture with a rectangle on it.
pub open spec fn filled(p: Pixels, left: int, top: int, width: int, height: int, c: Rgba) -> Pixels {
    painted(p, |x: int, y: int| left <= x < left + width && top <= y < top + height, c)
}

/// A picture with the outline of a rectangle on it.
pub open spec fn framed(p: Pixels, left: int, top: int, width: int, height: int, c: Rgba) -> Pixels {
    painted(
        p,
        |x: int, y: int|
            {
                &&& left <= x < left + width
                &&& top <= y < top + height
                &&& x == left || x == left + width - 1 || y == top || y == top + height - 1
            },
        c,
    )
}

/// Whether `v` lies between two ends, in whichever order they come.
pub open spec fn between(a: int, v: int, b: int) -> bool {
    a <= v <= b || b <= v <= a
}

/// A picture with an upright or level line on it, both ends included.
pub open spec fn lined(p: Pixels, from: (int, int), to: (int, int), c: Rgba) -> Pixels {
    painted(p, |x: int, y: int| between(from.0, x, to.0) && between(from.1, y, to.1), c)
}

/// The greatest coordinate of a line: up to it the numbers that lines are drawn with are exact.
pub const MAX_COORDINATE: i32 = 0x100_0000;

/// Whether a line can be drawn to there.
pub open spec fn reachable(at: (i32, i32)) -> bool {
    -MAX_COORDINATE <= at.0 <= MAX_COORDINATE && -MAX_COORDINATE <= at.1 <= MAX_COORDINATE
}

/// Painting keeps the size of a picture.
pub proof fn painting_keeps_the_size(
    p: Pixels,
    covers: spec_fn(int, int) -> bool,
    c: Rgba,
    width: int,
    height: int,
)
    requires
        sized(p, width, height),
    ensures
        sized(painted(p, covers, c), width, height),
{
}

impl Canvas {
    /// A canvas of a single color, by `ImageBuffer::from_pixel`: every pixel has it. It panics if
    /// the bytes of the picture are too many to be counted or held.
    #[verifier::external_body]
    pub(crate) fn uniform(width: u32, height: u32, c: Rgba) -> (canvas: Canvas)
        requires
            4 * width * height <= isize::MAX,
        ensures
            pixels(canvas) == uniform(width as nat, height as nat, c),
    {
        Canvas {
            image: image::RgbaImage::from_pixel(width, height, image::Rgba([c.0, c.1, c.2, c.3])),
        }
    }

    /// Width and height, by `ImageBuffer::dimensions`: all rows have the same width.
    #[verifier::external_body]
    pub(crate) fn dimensions(&self) -> (d: (u32, u32))
        ensures
            sized(pixels(*self), d.0 as int, d.1 as int),
    {
        self.image.dimensions()
    }

    /// The color of a pixel, by `ImageBuffer::get_pixel`, which panics outside the picture.
    #[verifier::external_body]
    pub(crate) fn get(&self, x: u32, y: u32) -> (c: Rgba)
        requires
            y < pixels(*self).len(),
            x < pixels(*self)[y as int].len(),
        ensures
            c == pixels(*self)[y as int][x as int],
    {
        let p = self.image.get_pixel(x, y);
        (p[0], p[1], p[2], p[3])
    }

    /// Colors one pixel, by `ImageBuffer::put_pixel`, which panics outside the picture.
    #[verifier::external_body]
    pub(crate) fn put(&mut self, x: u32, y: u32, c: Rgba)
        requires
            y < pixels(*old(self)).len(),
            x < pixels(*old(self))[y as int].len(),
        ensures
            pixels(*final(self)) == pixels(*old(self)).update(
                y as int,
                pixels(*old(self))[y as int].update(x as int, c),
            ),
    {
        self.image.put_pixel(x, y, image::Rgba([c.0, c.1, c.2, c.3]));
    }

    /// A copy, by the `clone` of `ImageBuffer`: it shows the same.
    #[verifier::external_body]
    pub(crate) fn duplicate(&self) -> (copy: Canvas)
        ensures
            pixels(copy) == pixels(*self),
    {
        Canvas { image: self.image.clone() }
    }

    /// Fills a rectangle, by `imageproc::drawing::draw_filled_rect_mut`: as much of it as lies in the
    /// picture. It panics on a rectangle or a picture without any pixel, and where an edge of one of
    /// them is no `i32`.
    #[verifier::external_body]
    pub(crate) fn fill(&mut self, left: i32, top: i32, width: u32, height: u32, c: Rgba)
        requires
            0 < width,
            0 < height,
            left + width <= i32::MAX,
            top + height <= i32::MAX,
            width <= i32::MAX,
            height <= i32::MAX,
            0 < pixels(*old(self)).len() <= i32::MAX,
            0 < pixels(*old(self))[0].len() <= i32::MAX,
        ensures
            pixels(*final(self)) == filled(
                pixels(*old(self)),
                left as int,
                top as int,
                width as int,
                height as int,
                c,
            ),
    {
        imageproc::drawing::draw_filled_rect_mut(
            &mut self.image,
            imageproc::rect::Rect::at(left, top).of_size(width, height),
            image::Rgba([c.0, c.1, c.2, c.3]),
        );
    }

    /// Draws a line, by `imageproc::drawing::draw_line_segment_mut`: as much of it as lies in the
    /// picture. Its ends are handed over in single precision, which holds coordinates of this size
    /// exactly. Of lines that are neither upright nor level nothing is said.
    #[verifier::external_body]
    pub(crate) fn line(&mut self, from: (i32, i32), to: (i32, i32), c: Rgba)
        requires
            reachable(from),
            reachable(to),
            from.0 == to.0 || from.1 == to.1,
            pixels(*old(self)).len() <= i32::MAX,
            forall|y: int|
                0 <= y < pixels(*old(self)).len() ==> (#[trigger] pixels(*old(self))[y]).len()
                    <= i32::MAX,
        ensures
            pixels(*final(self)) == lined(
                pixels(*old(self)),
                (from.0 as int, from.1 as int),
                (to.0 as int, to.1 as int),
                c,
            ),
    {
        imageproc::drawing::draw_line_segment_mut(
            &mut self.image,
            (from.0 as _, from.1 as _),
            (to.0 as _, to.1 as _),
            image::Rgba([c.0, c.1, c.2, c.3]),
        );
    }

    /// Draws the outline of a rectangle, by `imageproc::drawing::draw_hollow_rect_mut`: as much of it
    /// as lies in the picture. It is made of four lines, so that what holds of those holds of it; and
    /// it panics on a rectangle without any pixel.
    #[verifier::external_body]
    pub(crate) fn frame(&mut self, left: i32, top: i32, width: u32, height: u32, c: Rgba)
        requires
            0 < width <= i32::MAX,
            0 < height <= i32::MAX,
            reachable((left, top)),
            left + width - 1 <= MAX_COORDINATE,
            top + height - 1 <= MAX_COORDINATE,
            pixels(*old(self)).len() <= i32::MAX,
            forall|y: int|
                0 <= y < pixels(*old(self)).len() ==> (#[trigger] pixels(*old(self))[y]).len()
                    <= i32::MAX,
        ensures
            pixels(*final(self)) == framed(
                pixels(*old(self)),
                left as int,
                top as int,
                width as int,
                height as int,
                c,
            ),
    {
        imageproc::drawing::draw_hollow_rect_mut(
            &mut self.image,
            imageproc::rect::Rect::at(left, top).of_size(width, height),
            image::Rgba([c.0, c.1, c.2, c.3]),
        );
    }
}

/// The bytes of the first `n` pixels of a row.
pub open spec fn row_bytes(row: Seq<Rgba>, n: nat) -> Seq<u8>
    decreases n,
{
    if n == 0 {
        Seq::empty()
    } else {
        let c = row[n - 1];
        row_bytes(row, (n - 1) as nat) + seq![c.0, c.1, c.2, c.3]
    }
}

/// The bytes of the first `n` rows of a picture.
pub open spec fn bytes(p: Pixels, n: nat) -> Seq<u8>
    decreases n,
{
    if n == 0 {
        Seq::empty()
    } else {
        bytes(p, (n - 1) as nat) + row_bytes(p[n - 1], p[n - 1].len())
    }
}

impl Canvas {
    /// The width in pixels.
    pub fn width(&self) -> (w: u32)
        ensures
            forall|y: int|
                0 <= y < pixels(*self).len() ==> (#[trigger] pixels(*self)[y]).len() == w,
    {
        self.dimensions().0
    }

    /// The height in pixels.
    pub fn height(&self) -> (h: u32)
        ensures
            h == pixels(*self).len(),
    {
        self.dimensions().1
    }

    /// The picture as bytes: four to a pixel, row by row from the top.
    pub fn rgba(&self) -> (out: Vec<u8>)
        ensures
            out@ == bytes(pixels(*self), pixels(*self).len()),
    {
        let (width, height): (u32, u32) = self.dimensions();
        let ghost p = pixels(*self);
        let mut out: Vec<u8> = Vec::new();
        let mut y: u32 = 0;
        assert(out@ =~= bytes(p, 0));
        while y < height
            invariant
                p == pixels(*self),
                sized(p, width as int, height as int),
                y <= height,
                out@ == bytes(p, y as nat),
            decreases height - y,
        {
            let ghost above = out@;
            let ghost row = p[y as int];
            let mut x: u32 = 0;
            assert(out@ =~= above + row_bytes(row, 0));
            while x < width
                invariant
                    p == pixels(*self),
                    row == p[y as int],
                    y < p.len(),
                    row.len() == width,
                    x <= width,
                    out@ == above + row_bytes(row, x as nat),
                decreases width - x,
            {
                let c: Rgba = self.get(x, y);
                out.push(c.0);
                out.push(c.1);
                out.push(c.2);
                out.push(c.3);
                assert(out@ =~= above + row_bytes(row, (x + 1) as nat));
                x = x + 1;
            }
            y = y + 1;
        }
        out
    }
}

/// Whether a gray picture, in rows of `img_w`, has a value for every pixel of a window.
pub open spec fn readable(len: nat, img_w: u32, window: Region) -> bool {
    let (wx, wy, ww, wh) = window;
    &&& 0 <= wx && 0 <= wy && 0 <= ww && 0 <= wh
    &&& wx + ww <= i32::MAX && wy + wh <= i32::MAX
    &&& 0 < ww && 0 < wh ==> (wy + wh - 1) * img_w + wx + ww - 1 < len
}

/// Computes [`readable`].
pub fn is_readable(len: usize, img_w: u32, window: Region) -> (r: bool)
    ensures
        r == readable(len as nat, img_w, window),
{
    let (wx, wy, ww, wh): (i32, i32, i32, i32) = window;
    if wx < 0 || wy < 0 || ww < 0 || wh < 0 {
        return false;
    }
    if wx as i64 + ww as i64 > i32::MAX as i64 || wy as i64 + wh as i64 > i32::MAX as i64 {
        return false;
    }
    if ww == 0 || wh == 0 {
        return true;
    }
    let row: i128 = wy as i128 + wh as i128 - 1;
    assert(0 <= row * img_w <= 0xffff_ffff * 0xffff_ffff) by (nonlinear_arith)
        requires
            0 <= row <= 0xffff_ffff,
            0 <= img_w <= 0xffff_ffff,
    ;
    row * img_w as i128 + wx as i128 + ww as i128 - 1 < len as i128
}

/// Whether a picture of this size fits into memory.
pub fn fits(width: u32, height: u32) -> (r: bool)
    ensures
        r == (4 * width * height <= isize::MAX),
{
    assert(0 <= width * height <= 0xffff_ffff * 0xffff_ffff) by (nonlinear_arith)
        requires
            0 <= width <= 0xffff_ffff,
            0 <= height <= 0xffff_ffff,
    ;
    assert(4 * width * height == 4 * (width * height)) by (nonlinear_arith);
    4 * (width as u128 * height as u128) <= isize::MAX as u128
}

/// A gray value as a color.
pub open spec fn gray_color(v: u8) -> Rgba {
    (v, v, v, 255)
}

/// The first rows of a window of a gray picture, and the first `cols` pixels of the row below them,
/// with a margin to the right and below. What is not there yet has the color of the margin.
pub open spec fn cropped_to(
    gray: Seq<u8>,
    img_w: u32,
    window: Region,
    margin: nat,
    bg: Rgba,
    rows: int,
    cols: int,
) -> Pixels {
    let (wx, wy, ww, wh) = window;
    Seq::new(
        (wh + margin) as nat,
        |y: int|
            Seq::new(
                (ww + margin) as nat,
                |x: int|
                    if x < ww && y < wh && (y < rows || y == rows && x < cols) {
                        gray_color(gray[(wy + y) * img_w + wx + x])
                    } else {
                        bg
                    },
            ),
    )
}

/// A window of a gray picture, with a margin to the right and below.
pub open spec fn cropped(gray: Seq<u8>, img_w: u32, window: Region, margin: nat, bg: Rgba) -> Pixels {
    cropped_to(gray, img_w, window, margin, bg, window.3 as int, 0)
}

proof fn lemma_index(len: nat, img_w: u32, window: Region, x: int, y: int)
    requires
        readable(len, img_w, window),
        0 <= x < window.2,
        0 <= y < window.3,
    ensures
        0 <= (window.1 + y) * img_w,
        (window.1 + y) * img_w + window.0 + x < len,
{
    let wy = window.1 as int;
    let wh = window.3 as int;
    let w = img_w as int;
    assert(0 <= (wy + y) * w <= (wy + wh - 1) * w) by (nonlinear_arith)
        requires
            0 <= wy + y <= wy + wh - 1,
            0 <= w,
    ;
}

/// Shows a window of a gray picture, with a margin to the right and below.
pub(crate) fn crop(gray: &[u8], img_w: u32, window: Region, margin: u32, bg: Rgba) -> (canvas: Canvas)
    requires
        readable(gray@.len(), img_w, window),
        window.2 + margin <= u32::MAX,
        window.3 + margin <= u32::MAX,
        4 * (window.2 + margin) * (window.3 + margin) <= isize::MAX,
    ensures
        pixels(canvas) == cropped(gray@, img_w, window, margin as nat, bg),
{
    let (wx, wy, ww, wh): (i32, i32, i32, i32) = window;
    let mut canvas: Canvas = Canvas::uniform(ww as u32 + margin, wh as u32 + margin, bg);
    let mut y: u32 = 0;
    assert(pixels(canvas) =~~= cropped_to(gray@, img_w, window, margin as nat, bg, 0, 0));
    while y < wh as u32
        invariant
            readable(gray@.len(), img_w, window),
            window == (wx, wy, ww, wh),
            y <= wh,
            pixels(canvas) == cropped_to(
                gray@,
                img_w,
                window,
                margin as nat,
                bg,
                y as int,
                0,
            ),
        decreases wh - y,
    {
        let mut x: u32 = 0;
        while x < ww as u32
            invariant
                readable(gray@.len(), img_w, window),
                window == (wx, wy, ww, wh),
                y < wh,
                x <= ww,
                pixels(canvas) == cropped_to(
                    gray@,
                    img_w,
                    window,
                    margin as nat,
                    bg,
                    y as int,
                    x as int,
                ),
            decreases ww - x,
        {
            proof {
                lemma_index(gray@.len(), img_w, window, x as int, y as int);
                assert(gray@.len() == gray.len());
            }
            let v: u8 = gray[(wy as usize + y as usize) * img_w as usize + wx as usize + x as usize];
            canvas.put(x, y, (v, v, v, 255));
            assert(pixels(canvas) =~~= cropped_to(
                gray@,
                img_w,
                window,
                margin as nat,
                bg,
                y as int,
                x + 1,
            ));
            x = x + 1;
        }
        assert(pixels(canvas) =~~= cropped_to(
            gray@,
            img_w,
            window,
            margin as nat,
            bg,
            y + 1,
            0,
        ));
        y = y + 1;
    }
    canvas
}

/// A picture of an animation and how long it is shown.
pub struct Frame {
    pub canvas: Canvas,
    pub delay_ms: u64,
}

/// What a frame amounts to.
pub struct FrameView {
    pub pixels: Pixels,
    pub delay_ms: u64,
}

impl View for Frame {
    type V = FrameView;

    open spec fn view(&self) -> FrameView {
        FrameView { pixels: pixels(self.canvas), delay_ms: self.delay_ms }
    }
}

/// What a series of frames amounts to.
pub open spec fn shown(frames: Seq<Frame>) -> Seq<FrameView> {
    frames.map_values(|f: Frame| f@)
}

/// Whether all frames have that size.
pub open spec fn all_sized(frames: Seq<FrameView>, width: int, height: int) -> bool {
    forall|i: int|
        0 <= i < frames.len() ==> sized((#[trigger] frames[i]).pixels, width, height)
}

/// `n` frames of the same picture.
pub open spec fn held(p: Pixels, delay_ms: u64, n: nat) -> Seq<FrameView> {
    Seq::new(n, |i: int| FrameView { pixels: p, delay_ms })
}

/// Adds a frame.
pub(crate) fn push_frame(frames: &mut Vec<Frame>, canvas: &Canvas, delay_ms: u64)
    ensures
        shown(final(frames)@) == shown(old(frames)@).push(
            (FrameView { pixels: pixels(*canvas), delay_ms }),
        ),
{
    let ghost before = frames@;
    frames.push(Frame { canvas: canvas.duplicate(), delay_ms });
    assert(shown(frames@) =~= shown(before).push(
        FrameView { pixels: pixels(*canvas), delay_ms },
    ));
}

/// Adds the same frame several times over.
pub(crate) fn hold_frame(frames: &mut Vec<Frame>, canvas: &Canvas, delay_ms: u64, n: usize)
    ensures
        shown(final(frames)@) == shown(old(frames)@) + held(pixels(*canvas), delay_ms, n as nat),
{
    let ghost before = shown(frames@);
    let mut i: usize = 0;
    assert(shown(frames@) =~= before + held(pixels(*canvas), delay_ms, 0));
    while i < n
        invariant
            i <= n,
            shown(frames@) == before + held(pixels(*canvas), delay_ms, i as nat),
        decreases n - i,
    {
        push_frame(frames, canvas, delay_ms);
        assert(shown(frames@) =~= before + held(pixels(*canvas), delay_ms, (i + 1) as nat));
        i = i + 1;
    }
}

/// In how many batches `n` things are shown: in `most`, or one by one if there are fewer.
pub open spec fn batches(n: int, most: int) -> int {
    if n < most {
        n
    } else {
        most
    }
}

/// Where the `k`th batch of `n` things begins; the batches are as even as can be.
pub open spec fn batch_start(k: int, n: int, most: int) -> int {
    k * n / batches(n, most)
}

pub(crate) proof fn lemma_batches(k: int, n: int, most: int)
    requires
        0 < n,
        0 < most,
        0 <= k <= batches(n, most),
    ensures
        0 <= batch_start(k, n, most) <= n,
        k == 0 ==> batch_start(k, n, most) == 0,
        k == batches(n, most) ==> batch_start(k, n, most) == n,
        k < batches(n, most) ==> batch_start(k, n, most) < batch_start(k + 1, n, most) <= n,
{
    let c = batches(n, most);
    let (a, b) = (k * n, (k + 1) * n);
    assert(b == a + n && 0 <= a <= c * n && (k < c ==> b <= c * n)) by (nonlinear_arith)
        requires
            a == k * n,
            b == (k + 1) * n,
            0 <= k <= c,
            0 < n,
    ;
    let (q, r) = (a / c, b / c);
    vstd::arithmetic::div_mod::lemma_fundamental_div_mod(a, c);
    vstd::arithmetic::div_mod::lemma_fundamental_div_mod(b, c);
    let (s, u) = (a % c, b % c);
    assert(0 <= q <= n && (a == c * n ==> q == n) && (a == 0 ==> q == 0)) by (nonlinear_arith)
        requires
            a == c * q + s,
            0 <= s < c,
            0 <= a <= c * n,
            0 < n,
            0 < c,
    ;
    assert(k == c ==> a == c * n);
    assert(k == 0 ==> a == 0);
    assert(q < r) by (nonlinear_arith)
        requires
            a == c * q + s,
            b == c * r + u,
            0 <= s < c,
            0 <= u < c,
            b == a + n,
            c <= n,
    ;
    assert(b <= c * n ==> r <= n) by (nonlinear_arith)
        requires
            b == c * r + u,
            0 <= u < c,
    ;
}

/// Where the batch behind the `k`th one begins.
pub(crate) fn next_batch(k: usize, n: usize, most: usize) -> (end: usize)
    requires
        0 < n,
        0 < most,
        k < batches(n as int, most as int),
    ensures
        end == batch_start(k + 1, n as int, most as int),
        batch_start(k as int, n as int, most as int) < end <= n,
{
    let count: usize = if n < most {
        n
    } else {
        most
    };
    proof {
        lemma_batches(k as int, n as int, most as int);
        assert(0 <= (k + 1) * n <= 0xffff_ffff_ffff_ffff * 0xffff_ffff_ffff_ffff)
            by (nonlinear_arith)
            requires
                0 <= k < 0xffff_ffff_ffff_ffff,
                0 <= n <= 0xffff_ffff_ffff_ffff,
        ;
    }
    ((k as u128 + 1) * n as u128 / count as u128) as usize
}

} // verus!
