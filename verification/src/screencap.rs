//! A screenshot in shades of gray: what the compositor's events lead to, and the conversion of the
//! frame that it hands over.

use vstd::prelude::*;

use crate::vision::edges;

verus! {

/// Codes of the two buffer formats that are understood: 32 bits a pixel, with and without alpha.
pub const FORMAT_ARGB8888: u32 = 0;

pub const FORMAT_XRGB8888: u32 = 1;

/// A captured frame, as 8-bit gray values.
#[derive(Debug)]
pub struct Capture {
    pub width: u32,
    pub height: u32,
    pub gray: Vec<u8>,
}

impl Capture {
    /// There is a gray value for every pixel.
    pub open spec fn complete(self) -> bool {
        edges::picture(self.gray@, self.width, self.height).complete()
    }
}

/// How the compositor lays out a frame.
#[derive(Debug, Clone, Copy, PartialEq, Eq, Structural)]
pub struct BufferInfo {
    pub format: u32,
    pub width: u32,
    pub height: u32,
    /// Bytes from one row to the next.
    pub stride: u32,
}

/// What the compositor says of a frame.
#[derive(Debug, Clone, Copy, PartialEq, Eq, Structural)]
pub enum FrameEvent {
    /// The layout that it offers. A format outside of the protocol is `None`.
    Buffer { format: Option<u32>, width: u32, height: u32, stride: u32 },
    /// The frame has been copied.
    Ready,
    /// The frame could not be copied.
    Failed,
    /// Anything else.
    Other,
}

/// Why there is no screenshot.
#[derive(Debug, Clone, Copy, PartialEq, Eq, Structural)]
pub enum CaptureError {
    /// The buffer format is not understood.
    UnsupportedFormat(u32),
    /// The compositor failed to copy the frame.
    CopyFailed,
}

/// What to do next for a screenshot.
#[derive(Debug, Clone, Copy, PartialEq, Eq, Structural)]
pub enum CaptureAction {
    /// Wait for events.
    Dispatch,
    /// Provide a buffer of this layout and have the frame copied into it.
    Copy(BufferInfo),
    /// Turn the copied frame of this layout into gray values.
    Convert(BufferInfo),
    /// Give up.
    Fail(CaptureError),
}

/// The course of a screenshot.
#[derive(Debug, Clone, Copy, PartialEq, Eq, Structural)]
pub struct Session {
    /// The layout, once the compositor has offered one.
    pub buffer_info: Option<BufferInfo>,
    /// The layout that the copy was asked for with, once it was.
    pub copying: Option<BufferInfo>,
    /// Whether the copy succeeded, once that is known.
    pub done: Option<bool>,
}

impl Session {
    /// A screenshot that has been asked for.
    pub fn new() -> (s: Session)
        ensures
            s == (Session { buffer_info: None, copying: None, done: None }),
    {
        Session { buffer_info: None, copying: None, done: None }
    }

    /// This course after an event.
    pub open spec fn after(self, event: FrameEvent) -> Session {
        match event {
            FrameEvent::Buffer { format: Some(format), width, height, stride } => Session {
                buffer_info: Some(BufferInfo { format, width, height, stride }),
                ..self
            },
            FrameEvent::Ready => Session { done: Some(true), ..self },
            FrameEvent::Failed => Session { done: Some(false), ..self },
            _ => self,
        }
    }

    /// Takes in an event.
    pub fn event(&mut self, event: FrameEvent)
        ensures
            *final(self) == old(self).after(event),
    {
        match event {
            FrameEvent::Buffer { format, width, height, stride } => {
                if let Some(format) = format {
                    self.buffer_info = Some(BufferInfo { format, width, height, stride });
                }
            },
            FrameEvent::Ready => {
                self.done = Some(true);
            },
            FrameEvent::Failed => {
                self.done = Some(false);
            },
            FrameEvent::Other => {},
        }
    }

    /// Whether a format is understood.
    pub open spec fn supported(format: u32) -> bool {
        format == FORMAT_ARGB8888 || format == FORMAT_XRGB8888
    }

    /// What to do in this state.
    pub open spec fn action(self) -> CaptureAction {
        match (self.copying, self.buffer_info) {
            (Some(info), _) => match self.done {
                None => CaptureAction::Dispatch,
                Some(true) => CaptureAction::Convert(info),
                Some(false) => CaptureAction::Fail(CaptureError::CopyFailed),
            },
            (None, None) => CaptureAction::Dispatch,
            (None, Some(info)) => if Session::supported(info.format) {
                CaptureAction::Copy(info)
            } else {
                CaptureAction::Fail(CaptureError::UnsupportedFormat(info.format))
            },
        }
    }

    /// What to do next.
    pub fn next(&self) -> (a: CaptureAction)
        ensures
            a == self.action(),
    {
        match (self.copying, self.buffer_info) {
            (Some(info), _) => match self.done {
                None => CaptureAction::Dispatch,
                Some(true) => CaptureAction::Convert(info),
                Some(false) => CaptureAction::Fail(CaptureError::CopyFailed),
            },
            (None, None) => CaptureAction::Dispatch,
            (None, Some(info)) => {
                if info.format == FORMAT_ARGB8888 || info.format == FORMAT_XRGB8888 {
                    CaptureAction::Copy(info)
                } else {
                    CaptureAction::Fail(CaptureError::UnsupportedFormat(info.format))
                }
            },
        }
    }

    /// Notes that the copy has been asked for with the layout on offer.
    pub fn copy_requested(&mut self)
        ensures
            *final(self) == (Session { copying: old(self).buffer_info, ..*old(self) }),
    {
        self.copying = self.buffer_info;
    }
}

/// Bytes of a buffer, if their number fits.
pub fn buffer_size(info: &BufferInfo) -> (size: Option<u32>)
    ensures
        size == if info.stride * info.height <= u32::MAX {
            Some((info.stride * info.height) as u32)
        } else {
            None
        },
{
    assert(0 <= info.stride * info.height <= 0xffff_ffff * 0xffff_ffff) by (nonlinear_arith)
        requires
            0 <= info.stride <= 0xffff_ffff,
            0 <= info.height <= 0xffff_ffff,
    ;
    let size: u64 = info.stride as u64 * info.height as u64;
    if size <= u32::MAX as u64 {
        Some(size as u32)
    } else {
        None
    }
}

/// The luminance of a color.
pub open spec fn luminance(r: u8, g: u8, b: u8) -> u8 {
    ((r * 299 + g * 587 + b * 114) / 1000) as u8
}

/// The gray value of the pixel whose bytes start at `at`: blue, green and red, in this order.
pub open spec fn gray_at(bytes: Seq<u8>, at: int) -> u8 {
    luminance(bytes[at + 2], bytes[at + 1], bytes[at])
}

/// Where the bytes of a pixel start.
pub open spec fn pixel_start(col: int, row: int, stride: int) -> int {
    row * stride + col * 4
}

/// Every pixel has its three color bytes in a buffer of `len` bytes.
pub open spec fn frame_fits(len: nat, width: u32, height: u32, stride: u32) -> bool {
    width > 0 && height > 0 ==> pixel_start(width - 1, height - 1, stride as int) + 2 < len
}

/// Whether every pixel of a layout has its color bytes in a buffer of `len` bytes.
pub fn holds_frame(len: usize, info: &BufferInfo) -> (r: bool)
    ensures
        r == frame_fits(len as nat, info.width, info.height, info.stride),
{
    if info.width == 0 || info.height == 0 {
        return true;
    }
    let row: u64 = info.height as u64 - 1;
    let stride: u64 = info.stride as u64;
    assert(0 <= row * stride <= 0xffff_ffff * 0xffff_ffff) by (nonlinear_arith)
        requires
            0 <= row <= 0xffff_ffff,
            0 <= stride <= 0xffff_ffff,
    ;
    row as u128 * stride as u128 + (info.width as u128 - 1) * 4 + 2 < len as u128
}

/// The gray values of the first `n` pixels of a row.
pub open spec fn gray_row(bytes: Seq<u8>, row: int, stride: int, n: nat) -> Seq<u8> {
    Seq::new(n, |col: int| gray_at(bytes, pixel_start(col, row, stride)))
}

/// The gray values of the first `n` rows.
pub open spec fn gray_rows(bytes: Seq<u8>, width: nat, stride: int, n: nat) -> Seq<u8>
    decreases n,
{
    if n == 0 {
        Seq::empty()
    } else {
        gray_rows(bytes, width, stride, (n - 1) as nat) + gray_row(bytes, n - 1, stride, width)
    }
}

/// Appends the gray values of a row.
fn append_row(bytes: &[u8], width: u32, height: u32, stride: u32, row: u32, gray: &mut Vec<u8>)
    requires
        frame_fits(bytes@.len(), width, height, stride),
        row < height,
    ensures
        final(gray)@ == old(gray)@ + gray_row(bytes@, row as int, stride as int, width as nat),
{
    let ghost before = gray@;
    assert(bytes@.len() == bytes.len());
    let mut col: u32 = 0;
    assert(before + gray_row(bytes@, row as int, stride as int, 0) =~= before);
    while col < width
        invariant
            frame_fits(bytes@.len(), width, height, stride),
            bytes@.len() <= usize::MAX,
            row < height,
            col <= width,
            gray@ == before + gray_row(bytes@, row as int, stride as int, col as nat),
        decreases width - col,
    {
        assert(0 <= row * stride <= (height - 1) * stride) by (nonlinear_arith)
            requires
                0 <= row <= height - 1,
                0 <= stride,
        ;
        let px: usize = row as usize * stride as usize + col as usize * 4;
        let (b, g, r) = (bytes[px] as u32, bytes[px + 1] as u32, bytes[px + 2] as u32);
        gray.push(((r * 299 + g * 587 + b * 114) / 1000) as u8);
        assert(gray@ =~= before + gray_row(bytes@, row as int, stride as int, (col + 1) as nat));
        col = col + 1;
    }
}

/// Turns a frame of 32-bit pixels into gray values.
pub fn to_gray(bytes: &[u8], info: &BufferInfo) -> (c: Capture)
    requires
        frame_fits(bytes@.len(), info.width, info.height, info.stride),
    ensures
        c.width == info.width,
        c.height == info.height,
        c.gray@ == gray_rows(
            bytes@,
            info.width as nat,
            info.stride as int,
            info.height as nat,
        ),
        c.complete(),
{
    let mut gray: Vec<u8> = Vec::new();
    let mut row: u32 = 0;
    while row < info.height
        invariant
            frame_fits(bytes@.len(), info.width, info.height, info.stride),
            row <= info.height,
            gray@ == gray_rows(bytes@, info.width as nat, info.stride as int, row as nat),
        decreases info.height - row,
    {
        append_row(bytes, info.width, info.height, info.stride, row, &mut gray);
        row = row + 1;
    }
    proof {
        lemma_gray_len(bytes@, info.width as nat, info.stride as int, info.height as nat);
    }
    Capture { width: info.width, height: info.height, gray }
}

proof fn lemma_gray_len(bytes: Seq<u8>, width: nat, stride: int, n: nat)
    ensures
        gray_rows(bytes, width, stride, n).len() == width * n,
    decreases n,
{
    if n > 0 {
        lemma_gray_len(bytes, width, stride, (n - 1) as nat);
        assert(width * n == width * (n - 1) + width) by (nonlinear_arith)
            requires
                n > 0,
        ;
    } else {
        assert(width * 0 == 0) by (nonlinear_arith);
    }
}

/// The gray value at `(col, row)` of a converted frame is the luminance of that pixel.
pub proof fn gray_values_are_luminances(
    bytes: Seq<u8>,
    width: nat,
    stride: int,
    n: nat,
    col: int,
    row: int,
)
    requires
        0 <= col < width,
        0 <= row < n,
    ensures
        0 <= row * width + col < gray_rows(bytes, width, stride, n).len(),
        gray_rows(bytes, width, stride, n)[row * width + col] == gray_at(
            bytes,
            pixel_start(col, row, stride),
        ),
    decreases n,
{
    lemma_gray_len(bytes, width, stride, (n - 1) as nat);
    lemma_gray_len(bytes, width, stride, n);
    if row < n - 1 {
        gray_values_are_luminances(bytes, width, stride, (n - 1) as nat, col, row);
        assert(width * n == width * (n - 1) + width) by (nonlinear_arith)
            requires
                n > 0,
        ;
    } else {
        assert(row * width == width * (n - 1)) by (nonlinear_arith)
            requires
                row == n - 1,
        ;
        assert(width * n == width * (n - 1) + width) by (nonlinear_arith)
            requires
                n > 0,
        ;
    }
}

/// A gray color keeps its value, and no luminance leaves the range of a byte.
pub proof fn gray_keeps_its_value(r: u8, g: u8, b: u8)
    ensures
        luminance(r, g, b) == (r * 299 + g * 587 + b * 114) / 1000,
        r == g && g == b ==> luminance(r, g, b) == r,
{
}

/// A frame is converted only with the layout that the copy was asked for with, and once the copy was
/// reported as ready; it is given up only where the copy failed or the format on offer is unknown.
pub proof fn conversion_follows_a_copy(s: Session)
    ensures
        s.action() matches CaptureAction::Convert(info) ==> s.copying == Some(info) && s.done == Some(
            true,
        ),
        s.action() matches CaptureAction::Copy(info) ==> Session::supported(info.format),
        s.action() matches CaptureAction::Fail(e) ==> match e {
            CaptureError::CopyFailed => s.copying is Some && s.done == Some(false),
            CaptureError::UnsupportedFormat(f) => s.copying is None && !Session::supported(f),
        },
{
}

/// A converted frame has a gray value for each pixel: 299 parts of red, 587 of green and 114 of blue.
/// The bytes of a pixel are blue, green, red and one that does not matter, and a row begins a stride
/// after the one above.
pub proof fn pixels_become_gray(
    bytes: Seq<u8>,
    width: nat,
    stride: int,
    n: nat,
    col: int,
    row: int,
)
    requires
        0 <= col < width,
        0 <= row < n,
    ensures
        ({
            let at = row * stride + 4 * col;
            let gray = gray_rows(bytes, width, stride, n);
            &&& gray.len() == width * n
            &&& gray[row * width + col] == (299 * bytes[at + 2] + 587 * bytes[at + 1] + 114
                * bytes[at]) / 1000
        }),
{
    gray_values_are_luminances(bytes, width, stride, n, col, row);
    lemma_gray_len(bytes, width, stride, n);
    let at = row * stride + 4 * col;
    gray_keeps_its_value(bytes[at + 2], bytes[at + 1], bytes[at]);
}

/// A screenshot takes its course: once a layout in one of the two known formats is on offer, the frame
/// is copied with it; once the copy is reported as ready, the frame is converted with the same layout,
/// whatever else was on offer in the meantime. A copy that fails and a format that is not known end it.
pub proof fn a_screenshot_takes_its_course(
    format: u32,
    width: u32,
    height: u32,
    stride: u32,
    later: FrameEvent,
)
    ensures
        ({
            let asked = Session { buffer_info: None, copying: None, done: None };
            let info = BufferInfo { format, width, height, stride };
            let offered = asked.after(
                FrameEvent::Buffer { format: Some(format), width, height, stride },
            );
            let copying = Session { copying: offered.buffer_info, ..offered };
            &&& asked.action() == CaptureAction::Dispatch
            &&& asked.after(FrameEvent::Other) == asked
            &&& format <= 1 ==> offered.action() == CaptureAction::Copy(info)
            &&& format > 1 ==> offered.action() == CaptureAction::Fail(
                CaptureError::UnsupportedFormat(format),
            )
            &&& copying.action() == CaptureAction::Dispatch
            &&& later is Buffer || later is Other ==> copying.after(later).action()
                == CaptureAction::Dispatch
            &&& later is Buffer || later is Other ==> copying.after(later).after(
                FrameEvent::Ready,
            ).action() == CaptureAction::Convert(info)
            &&& copying.after(FrameEvent::Failed).action() == CaptureAction::Fail(
                CaptureError::CopyFailed,
            )
        }),
{
}

} // verus!
