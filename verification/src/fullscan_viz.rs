//! An animation of the full scan for lines: the sweep over a picture, how many rows and columns
//! agree on each position, and the lines that are kept.

use vstd::prelude::*;

use crate::canvas::{self, Canvas, Frame, FrameView, Pixels, Rgba, MAX_COORDINATE};
use crate::vision::dividers::Region;
use crate::vision::edges::{self, Orientation, Picture};
use crate::vision::fullscan::{self, FullScanOptions};
use crate::vision::lines;

verus! {

/// Which further check the lines have to pass.
#[derive(Debug, Clone, Copy, PartialEq, Eq, Structural)]
pub enum CheckKind {
    /// None: enough rows or columns agree.
    Plain,
    /// The line stands out from its neighborhood.
    Peak,
    /// The step size is much the same along the line.
    Uniformity,
}

impl CheckKind {
    /// The options of the scan.
    pub open spec fn options(self) -> FullScanOptions {
        FullScanOptions {
            peak_check: self is Peak,
            uniformity_check: self is Uniformity,
        }
    }

    /// The name of the check.
    pub fn name(&self) -> (s: &'static str)
        ensures
            s == match *self {
                CheckKind::Plain => "none",
                CheckKind::Peak => "peak",
                CheckKind::Uniformity => "uniformity",
            },
    {
        match *self {
            CheckKind::Plain => "none",
            CheckKind::Peak => "peak",
            CheckKind::Uniformity => "uniformity",
        }
    }
}

/// Width of the strips beside and below the picture that the counts are drawn on.
pub const MARGIN: u32 = 64;

/// Length of a bar on which half of the rows or columns agree.
pub const HALF_BAR: u32 = 32;

/// A sweep takes this many frames, however large the picture is; fewer only if there are fewer rows or
/// columns.
pub const SWEEP_REVEAL_FRAMES: usize = 16;

/// How often the frame with the thresholds is repeated, and the last one.
pub const HOLD_FRAME_COUNT: usize = 5;

pub const FINAL_HOLD_FRAME_COUNT: usize = 10;

/// How long a frame is shown during the sweep, and after it.
pub const REVEAL_DELAY_MS: u64 = 70;

pub const HOLD_DELAY_MS: u64 = 140;

pub const CURSOR: Rgba = (255, 255, 255, 255);

pub const HIT: Rgba = (255, 70, 70, 255);

pub const BAR: Rgba = (80, 170, 255, 255);

pub const BAR_REJECTED: Rgba = (255, 130, 30, 255);

pub const BAR_SURVIVING: Rgba = (255, 220, 0, 255);

pub const THRESHOLD_LINE: Rgba = (255, 70, 70, 255);

pub const GLOW_HALO: Rgba = (140, 120, 0, 255);

pub const GLOW_CORE: Rgba = (255, 255, 90, 255);

pub const MARGIN_BG: Rgba = (16, 16, 20, 255);

/// What became of a position.
#[derive(Debug, Clone, Copy, PartialEq, Eq, Structural)]
pub enum BarState {
    /// Fewer than half agree on it, or it is not decided yet.
    NeverCleared,
    /// At least half agree on it, but it did not pass the further check.
    RejectedByPeakCheck,
    /// At least half agree on it, and it passed the further check. Of several such positions side by
    /// side one is reported.
    Surviving,
}

/// The color of the bar of a position.
pub open spec fn color_of(state: BarState) -> Rgba {
    match state {
        BarState::NeverCleared => BAR,
        BarState::RejectedByPeakCheck => BAR_REJECTED,
        BarState::Surviving => BAR_SURVIVING,
    }
}

fn bar_color(state: BarState) -> (c: Rgba)
    ensures
        c == color_of(state),
{
    match state {
        BarState::NeverCleared => BAR,
        BarState::RejectedByPeakCheck => BAR_REJECTED,
        BarState::Surviving => BAR_SURVIVING,
    }
}

/// Length of the bar for a count, out of `max`: the nearest number of pixels, of two the greater one.
pub open spec fn bar_length(count: u32, max: u32) -> int {
    (2 * MARGIN * count + max) / (2 * max)
}

proof fn lemma_bar_length(count: u32, max: u32)
    requires
        0 < max,
        count <= max,
    ensures
        0 <= bar_length(count, max) <= MARGIN,
{
    let (c, m) = (count as int, max as int);
    assert(0 <= (128 * c + m) / (2 * m) <= 64) by (nonlinear_arith)
        requires
            0 <= c <= m,
            0 < m,
    ;
}

fn length_of_bar(count: u32, max: u32) -> (n: u32)
    requires
        0 < max,
        count <= max,
    ensures
        n == bar_length(count, max),
        n <= MARGIN,
{
    proof {
        lemma_bar_length(count, max);
    }
    ((128 * count as u64 + max as u64) / (2 * max as u64)) as u32
}

/// A length, but at least one pixel.
pub open spec fn visible(n: int) -> int {
    if n < 1 {
        1
    } else {
        n
    }
}

/// A picture of `(width, height)` pixels and its strips, with the bars of the first `n` columns.
pub open spec fn column_bars(
    p: Pixels,
    counts: Seq<u32>,
    states: Seq<BarState>,
    height: u32,
    n: nat,
) -> Pixels
    decreases n,
{
    if n == 0 {
        p
    } else {
        let before = column_bars(p, counts, states, height, (n - 1) as nat);
        let length = bar_length(counts[n - 1], height);
        if counts[n - 1] == 0 {
            before
        } else {
            canvas::filled(
                before,
                n - 1,
                height + MARGIN - length,
                1,
                visible(length),
                color_of(states[n - 1]),
            )
        }
    }
}

/// A picture of `(width, height)` pixels and its strips, with the bars of the first `n` rows.
pub open spec fn row_bars(
    p: Pixels,
    counts: Seq<u32>,
    states: Seq<BarState>,
    width: u32,
    n: nat,
) -> Pixels
    decreases n,
{
    if n == 0 {
        p
    } else {
        let before = row_bars(p, counts, states, width, (n - 1) as nat);
        let length = bar_length(counts[n - 1], width);
        if counts[n - 1] == 0 {
            before
        } else {
            canvas::filled(
                before,
                width + MARGIN - length,
                n - 1,
                visible(length),
                1,
                color_of(states[n - 1]),
            )
        }
    }
}

/// Counts and fates of the columns and of the rows.
pub struct Bars {
    pub columns: Seq<u32>,
    pub rows: Seq<u32>,
    pub column_states: Seq<BarState>,
    pub row_states: Seq<BarState>,
}

/// A picture with its strips cleared and the bars drawn: those of the columns below, those of the
/// rows to the right.
pub open spec fn with_histograms(p: Pixels, b: Bars) -> Pixels {
    let (width, height) = (b.columns.len() as u32, b.rows.len() as u32);
    let cleared = canvas::filled(
        canvas::filled(p, 0, height as int, width as int, MARGIN as int, MARGIN_BG),
        width as int,
        0,
        MARGIN as int,
        height as int,
        MARGIN_BG,
    );
    row_bars(
        column_bars(cleared, b.columns, b.column_states, height, b.columns.len()),
        b.rows,
        b.row_states,
        width,
        b.rows.len(),
    )
}

/// Whether a picture has a size that can be drawn on, with the strips.
pub open spec fn drawable(width: int, height: int) -> bool {
    &&& 0 < width <= MAX_COORDINATE - MARGIN
    &&& 0 < height <= MAX_COORDINATE - MARGIN
}

/// Whether there is a state for each count, and no count exceeds `max`.
pub open spec fn countable(counts: Seq<u32>, states: Seq<BarState>, max: int) -> bool {
    &&& states.len() == counts.len()
    &&& forall|i: int| 0 <= i < counts.len() ==> #[trigger] counts[i] <= max
}

fn draw_column_bars(
    canvas: &mut Canvas,
    counts: &Vec<u32>,
    states: &Vec<BarState>,
    width: u32,
    height: u32,
)
    requires
        drawable(width as int, height as int),
        counts@.len() == width,
        countable(counts@, states@, height as int),
        canvas::sized(canvas::pixels(*old(canvas)), width + MARGIN, height + MARGIN),
    ensures
        canvas::pixels(*final(canvas)) == column_bars(
            canvas::pixels(*old(canvas)),
            counts@,
            states@,
            height,
            counts@.len(),
        ),
        canvas::sized(canvas::pixels(*final(canvas)), width + MARGIN, height + MARGIN),
{
    let ghost before = canvas::pixels(*canvas);
    let mut x: usize = 0;
    while x < counts.len()
        invariant
            drawable(width as int, height as int),
            counts@.len() == width,
            countable(counts@, states@, height as int),
            canvas::sized(canvas::pixels(*canvas), width + MARGIN, height + MARGIN),
            x <= counts@.len(),
            canvas::pixels(*canvas) == column_bars(before, counts@, states@, height, x as nat),
        decreases counts.len() - x,
    {
        let c: u32 = counts[x];
        assert(counts@[x as int] <= height);
        if c != 0 {
            let length: u32 = length_of_bar(c, height);
            canvas.fill(
                x as i32,
                (height + MARGIN - length) as i32,
                1,
                if length < 1 {
                    1
                } else {
                    length
                },
                bar_color(states[x]),
            );
        }
        x = x + 1;
    }
}

fn draw_row_bars(
    canvas: &mut Canvas,
    counts: &Vec<u32>,
    states: &Vec<BarState>,
    width: u32,
    height: u32,
)
    requires
        drawable(width as int, height as int),
        counts@.len() == height,
        countable(counts@, states@, width as int),
        canvas::sized(canvas::pixels(*old(canvas)), width + MARGIN, height + MARGIN),
    ensures
        canvas::pixels(*final(canvas)) == row_bars(
            canvas::pixels(*old(canvas)),
            counts@,
            states@,
            width,
            counts@.len(),
        ),
        canvas::sized(canvas::pixels(*final(canvas)), width + MARGIN, height + MARGIN),
{
    let ghost before = canvas::pixels(*canvas);
    let mut y: usize = 0;
    while y < counts.len()
        invariant
            drawable(width as int, height as int),
            counts@.len() == height,
            countable(counts@, states@, width as int),
            canvas::sized(canvas::pixels(*canvas), width + MARGIN, height + MARGIN),
            y <= counts@.len(),
            canvas::pixels(*canvas) == row_bars(before, counts@, states@, width, y as nat),
        decreases counts.len() - y,
    {
        let c: u32 = counts[y];
        assert(counts@[y as int] <= width);
        if c != 0 {
            let length: u32 = length_of_bar(c, width);
            canvas.fill(
                (width + MARGIN - length) as i32,
                y as i32,
                if length < 1 {
                    1
                } else {
                    length
                },
                1,
                bar_color(states[y]),
            );
        }
        y = y + 1;
    }
}

fn draw_histograms(
    canvas: &mut Canvas,
    columns: &Vec<u32>,
    rows: &Vec<u32>,
    column_states: &Vec<BarState>,
    row_states: &Vec<BarState>,
)
    requires
        drawable(columns@.len() as int, rows@.len() as int),
        countable(columns@, column_states@, rows@.len() as int),
        countable(rows@, row_states@, columns@.len() as int),
        canvas::sized(
            canvas::pixels(*old(canvas)),
            columns@.len() + MARGIN,
            rows@.len() + MARGIN,
        ),
    ensures
        canvas::pixels(*final(canvas)) == with_histograms(
            canvas::pixels(*old(canvas)),
            (Bars {
                columns: columns@,
                rows: rows@,
                column_states: column_states@,
                row_states: row_states@,
            }),
        ),
        canvas::sized(
            canvas::pixels(*final(canvas)),
            columns@.len() + MARGIN,
            rows@.len() + MARGIN,
        ),
{
    let (width, height): (u32, u32) = (columns.len() as u32, rows.len() as u32);
    canvas.fill(0, height as i32, width, MARGIN, MARGIN_BG);
    canvas.fill(width as i32, 0, MARGIN, height, MARGIN_BG);
    draw_column_bars(canvas, columns, column_states, width, height);
    draw_row_bars(canvas, rows, row_states, width, height);
}

/// A picture with one line of a halo: beside an upright line, above or below another one.
pub open spec fn with_halo(p: Pixels, from: (int, int), to: (int, int), offset: int) -> Pixels {
    if from.0 == to.0 {
        canvas::lined(p, (from.0 + offset, from.1), (to.0 + offset, to.1), GLOW_HALO)
    } else {
        canvas::lined(p, (from.0, from.1 + offset), (to.0, to.1 + offset), GLOW_HALO)
    }
}

/// A picture with a line that seems to glow: a wide and dim one below a thin and bright one.
pub open spec fn with_glow(p: Pixels, from: (int, int), to: (int, int)) -> Pixels {
    let outer = with_halo(with_halo(p, from, to, -2), from, to, -1);
    let inner = with_halo(with_halo(with_halo(outer, from, to, 0), from, to, 1), from, to, 2);
    canvas::lined(inner, from, to, GLOW_CORE)
}

fn draw_halo(
    canvas: &mut Canvas,
    from: (i32, i32),
    to: (i32, i32),
    offset: i32,
    Ghost(size): Ghost<(int, int)>,
)
    requires
        0 <= from.0 < MAX_COORDINATE - 2,
        0 <= from.1 < MAX_COORDINATE - 2,
        0 <= to.0 < MAX_COORDINATE - 2,
        0 <= to.1 < MAX_COORDINATE - 2,
        from.0 == to.0 || from.1 == to.1,
        -2 <= offset <= 2,
        0 <= size.0 <= MAX_COORDINATE,
        0 <= size.1 <= MAX_COORDINATE,
        canvas::sized(canvas::pixels(*old(canvas)), size.0, size.1),
    ensures
        canvas::pixels(*final(canvas)) == with_halo(
            canvas::pixels(*old(canvas)),
            (from.0 as int, from.1 as int),
            (to.0 as int, to.1 as int),
            offset as int,
        ),
        canvas::sized(canvas::pixels(*final(canvas)), size.0, size.1),
{
    if from.0 == to.0 {
        canvas.line((from.0 + offset, from.1), (to.0 + offset, to.1), GLOW_HALO);
    } else {
        canvas.line((from.0, from.1 + offset), (to.0, to.1 + offset), GLOW_HALO);
    }
}

fn draw_glow_line(
    canvas: &mut Canvas,
    from: (i32, i32),
    to: (i32, i32),
    Ghost(size): Ghost<(int, int)>,
)
    requires
        0 <= from.0 < MAX_COORDINATE - 2,
        0 <= from.1 < MAX_COORDINATE - 2,
        0 <= to.0 < MAX_COORDINATE - 2,
        0 <= to.1 < MAX_COORDINATE - 2,
        from.0 == to.0 || from.1 == to.1,
        0 <= size.0 <= MAX_COORDINATE,
        0 <= size.1 <= MAX_COORDINATE,
        canvas::sized(canvas::pixels(*old(canvas)), size.0, size.1),
    ensures
        canvas::pixels(*final(canvas)) == with_glow(
            canvas::pixels(*old(canvas)),
            (from.0 as int, from.1 as int),
            (to.0 as int, to.1 as int),
        ),
        canvas::sized(canvas::pixels(*final(canvas)), size.0, size.1),
{
    draw_halo(canvas, from, to, -2, Ghost(size));
    draw_halo(canvas, from, to, -1, Ghost(size));
    draw_halo(canvas, from, to, 0, Ghost(size));
    draw_halo(canvas, from, to, 1, Ghost(size));
    draw_halo(canvas, from, to, 2, Ghost(size));
    canvas.line(from, to, GLOW_CORE);
}

/// A window of a picture that is scanned.
pub struct Scan {
    pub picture: Picture,
    pub window: Region,
}

impl Scan {
    /// Whether the scan can be shown: its window lies over gray values, and has a size that can be
    /// drawn on and held in memory.
    pub open spec fn showable(self) -> bool {
        let (_, _, ww, wh) = self.window;
        &&& self.picture.complete()
        &&& canvas::readable(self.picture.gray.len(), self.picture.width, self.window)
        &&& drawable(ww as int, wh as int)
        &&& 4 * (ww + MARGIN) * (wh + MARGIN) <= isize::MAX
    }

    /// The window in gray, with the strips.
    pub open spec fn base(self) -> Pixels {
        canvas::cropped(
            self.picture.gray,
            self.picture.width,
            self.window,
            MARGIN as nat,
            MARGIN_BG,
        )
    }

    /// The window with the steps to the left marked, in some of its rows.
    pub open spec fn marked(self, from: int, to: int) -> Pixels {
        let (wx, wy, ww, _) = self.window;
        canvas::painted(
            self.base(),
            |x: int, y: int|
                x < ww && from <= y < to && self.picture.edge(
                    wx + x,
                    wy + y,
                    Orientation::Vertical,
                ),
            HIT,
        )
    }

    /// How many of the first `n` pixels along each line of the window have a step across it.
    pub open spec fn tallied(self, orientation: Orientation, n: nat) -> Seq<u32> {
        let (first, number, start, _) = fullscan::layout(self.window, orientation);
        Seq::new(
            number,
            |i: int|
                lines::tally(
                    fullscan::changes(self.picture, orientation, first + i, start as int),
                    n,
                ) as u32,
        )
    }

    /// The bars after so many rows and columns, with nothing decided.
    pub open spec fn bars(self, rows: nat, columns: nat) -> Bars {
        Bars {
            columns: self.tallied(Orientation::Vertical, rows),
            rows: self.tallied(Orientation::Horizontal, columns),
            column_states: undecided(self.window.2 as nat),
            row_states: undecided(self.window.3 as nat),
        }
    }

    /// The frame of the sweep down over some rows.
    pub open spec fn row_frame(self, from: int, to: int) -> FrameView {
        let swept = canvas::lined(
            self.marked(from, to),
            (0, to - 1),
            (self.window.2 as int, to - 1),
            CURSOR,
        );
        FrameView {
            pixels: with_histograms(swept, self.bars(to as nat, 0)),
            delay_ms: REVEAL_DELAY_MS,
        }
    }

    /// The frame of the sweep to the right over some columns.
    pub open spec fn column_frame(self, to: int) -> FrameView {
        let (_, _, _, wh) = self.window;
        let swept = canvas::lined(
            self.marked(0, wh as int),
            (to - 1, 0),
            (to - 1, wh as int),
            CURSOR,
        );
        FrameView {
            pixels: with_histograms(swept, self.bars(wh as nat, to as nat)),
            delay_ms: REVEAL_DELAY_MS,
        }
    }

    /// The frames of the sweep down, from the `k`th on.
    pub open spec fn row_frames(self, k: int) -> Seq<FrameView>
        decreases sweep_frames(self.window.3 as int) - k,
    {
        let wh = self.window.3 as int;
        if k >= sweep_frames(wh) {
            Seq::empty()
        } else {
            seq![self.row_frame(sweep_start(k, wh), sweep_start(k + 1, wh))] + self.row_frames(
                k + 1,
            )
        }
    }

    /// The frames of the sweep to the right, from the `k`th on.
    pub open spec fn column_frames(self, k: int) -> Seq<FrameView>
        decreases sweep_frames(self.window.2 as int) - k,
    {
        let ww = self.window.2 as int;
        if k >= sweep_frames(ww) {
            Seq::empty()
        } else {
            seq![self.column_frame(sweep_start(k + 1, ww))] + self.column_frames(k + 1)
        }
    }

    /// All steps and counts, and how long a bar has to be.
    pub open spec fn threshold_picture(self) -> Pixels {
        let (_, _, ww, wh) = self.window;
        let counted = with_histograms(
            self.marked(0, wh as int),
            self.bars(wh as nat, ww as nat),
        );
        let bottom = wh + MARGIN - HALF_BAR;
        let right = ww + MARGIN - HALF_BAR;
        canvas::lined(
            canvas::lined(counted, (0, bottom), (ww as int, bottom), THRESHOLD_LINE),
            (right, 0),
            (right, wh as int),
            THRESHOLD_LINE,
        )
    }

    /// The lines that a scan finds under a check.
    pub open spec fn found(self, orientation: Orientation, check: CheckKind) -> Seq<i32> {
        fullscan::scanned_lines(self.picture, self.window, orientation, check.options())
    }

    /// The counts, what became of each position, and the lines that are kept.
    pub open spec fn final_picture(self, check: CheckKind) -> Pixels {
        let (wx, wy, ww, wh) = self.window;
        let (xs, ys) = (
            self.found(Orientation::Vertical, check),
            self.found(Orientation::Horizontal, check),
        );
        let judged = with_histograms(
            self.base(),
            Bars {
                columns: self.tallied(Orientation::Vertical, wh as nat),
                rows: self.tallied(Orientation::Horizontal, ww as nat),
                column_states: self.fates(Orientation::Vertical, check),
                row_states: self.fates(Orientation::Horizontal, check),
            },
        );
        level_glows(
            upright_glows(judged, xs, wx as int, wh as int, xs.len()),
            ys,
            wy as int,
            ww as int,
            ys.len(),
        )
    }

    /// The frames of the animation.
    pub open spec fn frames(self, check: CheckKind) -> Seq<FrameView> {
        self.row_frames(0) + self.column_frames(0) + canvas::held(
            self.threshold_picture(),
            HOLD_DELAY_MS,
            HOLD_FRAME_COUNT as nat,
        ) + canvas::held(
            self.final_picture(check),
            HOLD_DELAY_MS,
            FINAL_HOLD_FRAME_COUNT as nat,
        )
    }
}

/// Whether a scan can be shown.
pub fn is_showable(gray: &[u8], img_w: u32, img_h: u32, window: Region) -> (r: bool)
    ensures
        r == (Scan { picture: edges::picture(gray@, img_w, img_h), window }).showable(),
{
    let (_, _, ww, wh): (i32, i32, i32, i32) = window;
    if !edges::is_complete(gray, img_w, img_h) || !canvas::is_readable(gray.len(), img_w, window) {
        return false;
    }
    let limit: i32 = MAX_COORDINATE - MARGIN as i32;
    if ww <= 0 || wh <= 0 || ww > limit || wh > limit {
        return false;
    }
    canvas::fits(ww as u32 + MARGIN, wh as u32 + MARGIN)
}

/// In how many frames `n` rows or columns are swept over.
pub open spec fn sweep_frames(n: int) -> int {
    canvas::batches(n, SWEEP_REVEAL_FRAMES as int)
}

/// The first of the rows or columns in the `k`th of these frames.
pub open spec fn sweep_start(k: int, n: int) -> int {
    canvas::batch_start(k, n, SWEEP_REVEAL_FRAMES as int)
}

/// Nothing has become of any of `n` positions yet.
pub open spec fn undecided(n: nat) -> Seq<BarState> {
    Seq::new(n, |i: int| BarState::NeverCleared)
}

impl Scan {
    /// What became of the `i`th position under a check.
    pub open spec fn fate(self, orientation: Orientation, check: CheckKind, i: int) -> BarState {
        if fullscan::survives(self.picture, self.window, orientation, check.options(), i) {
            BarState::Surviving
        } else if fullscan::survives(
            self.picture,
            self.window,
            orientation,
            CheckKind::Plain.options(),
            i,
        ) {
            BarState::RejectedByPeakCheck
        } else {
            BarState::NeverCleared
        }
    }

    /// What became of each position under a check.
    pub open spec fn fates(self, orientation: Orientation, check: CheckKind) -> Seq<BarState> {
        Seq::new(
            fullscan::layout(self.window, orientation).1,
            |i: int| self.fate(orientation, check, i),
        )
    }
}

/// A picture with the first `n` of some upright lines.
pub open spec fn upright_glows(p: Pixels, xs: Seq<i32>, wx: int, wh: int, n: nat) -> Pixels
    decreases n,
{
    if n == 0 {
        p
    } else {
        let x = xs[n - 1] - wx;
        with_glow(upright_glows(p, xs, wx, wh, (n - 1) as nat), (x, 0), (x, wh))
    }
}

/// A picture with the first `n` of some level lines.
pub open spec fn level_glows(p: Pixels, ys: Seq<i32>, wy: int, ww: int, n: nat) -> Pixels
    decreases n,
{
    if n == 0 {
        p
    } else {
        let y = ys[n - 1] - wy;
        with_glow(level_glows(p, ys, wy, ww, (n - 1) as nat), (0, y), (ww, y))
    }
}

fn mark_steps(
    canvas: &mut Canvas,
    gray: &[u8],
    img_w: u32,
    img_h: u32,
    window: Region,
    from: u32,
    to: u32,
    Ghost(scan): Ghost<Scan>,
)
    requires
        scan == (Scan { picture: edges::picture(gray@, img_w, img_h), window }),
        scan.showable(),
        from <= to <= window.3,
        canvas::pixels(*old(canvas)) == scan.base(),
    ensures
        canvas::pixels(*final(canvas)) == scan.marked(from as int, to as int),
        canvas::sized(canvas::pixels(*final(canvas)), window.2 + MARGIN, window.3 + MARGIN),
{
    let (wx, wy, ww, _) = window;
    let ghost edge = |x: int, y: int|
        scan.picture.edge(wx + x, wy + y, Orientation::Vertical);
    let ghost done = |r: int, c: int|
        |x: int, y: int| x < ww && from <= y && (y < r || y == r && x < c) && edge(x, y);
    let mut y: u32 = from;
    assert(canvas::pixels(*canvas) =~~= canvas::painted(scan.base(), done(y as int, 0), HIT));
    while y < to
        invariant
            scan == (Scan { picture: edges::picture(gray@, img_w, img_h), window }),
            scan.showable(),
            window.0 == wx && window.1 == wy && window.2 == ww,
            from <= y <= to <= window.3,
            edge == (|x: int, y: int| scan.picture.edge(wx + x, wy + y, Orientation::Vertical)),
            done == (|r: int, c: int|
                |x: int, y: int| x < ww && from <= y && (y < r || y == r && x < c) && edge(x, y)),
            canvas::pixels(*canvas) == canvas::painted(scan.base(), done(y as int, 0), HIT),
        decreases to - y,
    {
        let mut x: u32 = 0;
        while x < ww as u32
            invariant
                scan == (Scan { picture: edges::picture(gray@, img_w, img_h), window }),
                scan.showable(),
                window.0 == wx && window.1 == wy && window.2 == ww,
                from <= y < to <= window.3,
                x <= ww,
                edge == (|x: int, y: int|
                    scan.picture.edge(wx + x, wy + y, Orientation::Vertical)),
                done == (|r: int, c: int|
                    |x: int, y: int|
                        x < ww && from <= y && (y < r || y == r && x < c) && edge(x, y)),
                canvas::pixels(*canvas) == canvas::painted(
                    scan.base(),
                    done(y as int, x as int),
                    HIT,
                ),
            decreases ww - x,
        {
            if edges::is_edge_pixel(
                gray,
                img_w,
                img_h,
                wx + x as i32,
                wy + y as i32,
                Orientation::Vertical,
            ) {
                canvas.put(x, y, HIT);
            }
            assert(canvas::pixels(*canvas) =~~= canvas::painted(
                scan.base(),
                done(y as int, x + 1),
                HIT,
            ));
            x = x + 1;
        }
        assert(canvas::pixels(*canvas) =~~= canvas::painted(scan.base(), done(y + 1, 0), HIT));
        y = y + 1;
    }
    assert(canvas::pixels(*canvas) =~~= scan.marked(from as int, to as int));
}

fn tally_more(
    counts: &mut Vec<u32>,
    gray: &[u8],
    img_w: u32,
    img_h: u32,
    window: Region,
    orientation: Orientation,
    from: u32,
    to: u32,
    Ghost(scan): Ghost<Scan>,
)
    requires
        scan == (Scan { picture: edges::picture(gray@, img_w, img_h), window }),
        scan.showable(),
        from <= to <= fullscan::layout(window, orientation).3,
        old(counts)@ == scan.tallied(orientation, from as nat),
    ensures
        final(counts)@ == scan.tallied(orientation, to as nat),
{
    let (first, start): (i32, i32) = match orientation {
        Orientation::Vertical => (window.0, window.1),
        Orientation::Horizontal => (window.1, window.0),
    };
    let ghost (before, after) = (
        scan.tallied(orientation, from as nat),
        scan.tallied(orientation, to as nat),
    );
    let mut i: usize = 0;
    while i < counts.len()
        invariant
            scan == (Scan { picture: edges::picture(gray@, img_w, img_h), window }),
            scan.showable(),
            first == fullscan::layout(window, orientation).0,
            start == fullscan::layout(window, orientation).2,
            from <= to <= fullscan::layout(window, orientation).3,
            before == scan.tallied(orientation, from as nat),
            after == scan.tallied(orientation, to as nat),
            counts@.len() == before.len(),
            i <= counts@.len(),
            forall|j: int| 0 <= j < i ==> counts@[j] == #[trigger] after[j],
            forall|j: int| i <= j < before.len() ==> counts@[j] == #[trigger] before[j],
        decreases counts.len() - i,
    {
        let fixed: i32 = (first as i64 + i as i64) as i32;
        let ghost test = fullscan::changes(scan.picture, orientation, first + i, start as int);
        proof {
            fullscan::lemma_tally(test, from as nat);
            fullscan::lemma_tally(test, to as nat);
            assert(before[i as int] == lines::tally(test, from as nat));
        }
        let mut count: u32 = counts[i];
        let mut k: u32 = from;
        while k < to
            invariant
                scan == (Scan { picture: edges::picture(gray@, img_w, img_h), window }),
                scan.showable(),
                fixed == first + i,
                test == fullscan::changes(scan.picture, orientation, first + i, start as int),
                start == fullscan::layout(window, orientation).2,
                from <= k <= to <= fullscan::layout(window, orientation).3,
                count == lines::tally(test, k as nat),
                count <= k,
            decreases to - k,
        {
            let along: i32 = (start as i64 + k as i64) as i32;
            let (x, y): (i32, i32) = match orientation {
                Orientation::Vertical => (fixed, along),
                Orientation::Horizontal => (along, fixed),
            };
            if edges::is_edge_pixel(gray, img_w, img_h, x, y, orientation) {
                count = count + 1;
            }
            k = k + 1;
        }
        counts.set(i, count);
        assert(after[i as int] == lines::tally(test, to as nat));
        i = i + 1;
    }
    assert(counts@ =~= after);
}

fn judge(
    gray: &[u8],
    img_w: u32,
    img_h: u32,
    window: Region,
    orientation: Orientation,
    check: CheckKind,
    Ghost(scan): Ghost<Scan>,
) -> (states: Vec<BarState>)
    requires
        scan == (Scan { picture: edges::picture(gray@, img_w, img_h), window }),
        scan.showable(),
    ensures
        states@ == scan.fates(orientation, check),
{
    let plain: FullScanOptions = FullScanOptions { peak_check: false, uniformity_check: false };
    let options: FullScanOptions = match check {
        CheckKind::Plain => plain,
        CheckKind::Peak => FullScanOptions { peak_check: true, uniformity_check: false },
        CheckKind::Uniformity => FullScanOptions { peak_check: false, uniformity_check: true },
    };
    let counts: Vec<u32> = fullscan::scan_lines(gray, img_w, img_h, window, orientation);
    let mut states: Vec<BarState> = Vec::new();
    let mut i: usize = 0;
    while i < counts.len()
        invariant
            scan == (Scan { picture: edges::picture(gray@, img_w, img_h), window }),
            scan.showable(),
            options == check.options(),
            plain == CheckKind::Plain.options(),
            counts@ == fullscan::scan_counts(scan.picture, window, orientation),
            i <= counts@.len(),
            states@.len() == i,
            forall|k: int| 0 <= k < i ==> #[trigger] states@[k] == scan.fate(orientation, check, k),
        decreases counts.len() - i,
    {
        let state: BarState = if fullscan::line_survives(
            gray,
            img_w,
            img_h,
            window,
            orientation,
            options,
            &counts,
            i,
        ) {
            BarState::Surviving
        } else if fullscan::line_survives(
            gray,
            img_w,
            img_h,
            window,
            orientation,
            plain,
            &counts,
            i,
        ) {
            BarState::RejectedByPeakCheck
        } else {
            BarState::NeverCleared
        };
        states.push(state);
        i = i + 1;
    }
    assert(states@ =~= scan.fates(orientation, check));
    states
}

fn draw_upright_glows(
    canvas: &mut Canvas,
    xs: &Vec<i32>,
    wx: i32,
    ww: u32,
    wh: u32,
)
    requires
        drawable(ww as int, wh as int),
        forall|i: int| 0 <= i < xs@.len() ==> 0 <= #[trigger] xs@[i] - wx < ww,
        canvas::sized(canvas::pixels(*old(canvas)), ww + MARGIN, wh + MARGIN),
    ensures
        canvas::pixels(*final(canvas)) == upright_glows(
            canvas::pixels(*old(canvas)),
            xs@,
            wx as int,
            wh as int,
            xs@.len(),
        ),
        canvas::sized(canvas::pixels(*final(canvas)), ww + MARGIN, wh + MARGIN),
{
    let ghost before = canvas::pixels(*canvas);
    let mut i: usize = 0;
    while i < xs.len()
        invariant
            drawable(ww as int, wh as int),
            forall|i: int| 0 <= i < xs@.len() ==> 0 <= #[trigger] xs@[i] - wx < ww,
            canvas::sized(canvas::pixels(*canvas), ww + MARGIN, wh + MARGIN),
            i <= xs@.len(),
            canvas::pixels(*canvas) == upright_glows(before, xs@, wx as int, wh as int, i as nat),
        decreases xs.len() - i,
    {
        assert(0 <= xs@[i as int] - wx < ww);
        let x: i32 = xs[i] - wx;
        draw_glow_line(canvas, (x, 0), (x, wh as i32), Ghost((ww + MARGIN, wh + MARGIN)));
        i = i + 1;
    }
}

fn draw_level_glows(
    canvas: &mut Canvas,
    ys: &Vec<i32>,
    wy: i32,
    ww: u32,
    wh: u32,
)
    requires
        drawable(ww as int, wh as int),
        forall|i: int| 0 <= i < ys@.len() ==> 0 <= #[trigger] ys@[i] - wy < wh,
        canvas::sized(canvas::pixels(*old(canvas)), ww + MARGIN, wh + MARGIN),
    ensures
        canvas::pixels(*final(canvas)) == level_glows(
            canvas::pixels(*old(canvas)),
            ys@,
            wy as int,
            ww as int,
            ys@.len(),
        ),
{
    let ghost before = canvas::pixels(*canvas);
    let mut i: usize = 0;
    while i < ys.len()
        invariant
            drawable(ww as int, wh as int),
            forall|i: int| 0 <= i < ys@.len() ==> 0 <= #[trigger] ys@[i] - wy < wh,
            canvas::sized(canvas::pixels(*canvas), ww + MARGIN, wh + MARGIN),
            i <= ys@.len(),
            canvas::pixels(*canvas) == level_glows(before, ys@, wy as int, ww as int, i as nat),
        decreases ys.len() - i,
    {
        assert(0 <= ys@[i as int] - wy < wh);
        let y: i32 = ys[i] - wy;
        draw_glow_line(canvas, (0, y), (ww as i32, y), Ghost((ww + MARGIN, wh + MARGIN)));
        i = i + 1;
    }
}

fn frames_of_sweep(n: u32) -> (c: usize)
    requires
        0 < n,
    ensures
        c == sweep_frames(n as int),
        c > 0,
{
    if (n as usize) < SWEEP_REVEAL_FRAMES {
        n as usize
    } else {
        SWEEP_REVEAL_FRAMES
    }
}

fn none_decided(n: u32) -> (states: Vec<BarState>)
    ensures
        states@ == undecided(n as nat),
{
    let mut states: Vec<BarState> = Vec::new();
    let mut i: u32 = 0;
    while i < n
        invariant
            i <= n,
            states@ == undecided(i as nat),
        decreases n - i,
    {
        states.push(BarState::NeverCleared);
        assert(states@ =~= undecided((i + 1) as nat));
        i = i + 1;
    }
    states
}

proof fn lemma_bars(scan: Scan, rows: nat, columns: nat)
    requires
        scan.showable(),
        rows <= scan.window.3,
        columns <= scan.window.2,
    ensures
        countable(
            scan.tallied(Orientation::Vertical, rows),
            scan.bars(rows, columns).column_states,
            scan.window.3 as int,
        ),
        countable(
            scan.tallied(Orientation::Horizontal, columns),
            scan.bars(rows, columns).row_states,
            scan.window.2 as int,
        ),
        canvas::sized(scan.base(), scan.window.2 + MARGIN, scan.window.3 + MARGIN),
{
    let (wx, wy, ww, wh) = scan.window;
    assert forall|i: int| 0 <= i < ww implies #[trigger] scan.tallied(
        Orientation::Vertical,
        rows,
    )[i] <= wh by {
        fullscan::lemma_tally(
            fullscan::changes(scan.picture, Orientation::Vertical, wx + i, wy as int),
            rows,
        );
    }
    assert forall|i: int| 0 <= i < wh implies #[trigger] scan.tallied(
        Orientation::Horizontal,
        columns,
    )[i] <= ww by {
        fullscan::lemma_tally(
            fullscan::changes(scan.picture, Orientation::Horizontal, wy + i, wx as int),
            columns,
        );
    }
}

fn no_counts(n: u32) -> (counts: Vec<u32>)
    ensures
        counts@ == Seq::new(n as nat, |i: int| 0u32),
{
    let mut counts: Vec<u32> = Vec::new();
    let mut i: u32 = 0;
    while i < n
        invariant
            i <= n,
            counts@ == Seq::new(i as nat, |i: int| 0u32),
        decreases n - i,
    {
        counts.push(0);
        assert(counts@ =~= Seq::new((i + 1) as nat, |i: int| 0u32));
        i = i + 1;
    }
    counts
}

/// The strips and counts of an animation under way.
struct Progress {
    base: Canvas,
    columns: Vec<u32>,
    rows: Vec<u32>,
    column_states: Vec<BarState>,
    row_states: Vec<BarState>,
}

impl Progress {
    /// Whether that many rows and columns have been swept over, and nothing is decided.
    spec fn at(self, scan: Scan, rows: nat, columns: nat) -> bool {
        &&& canvas::pixels(self.base) == scan.base()
        &&& self.columns@ == scan.tallied(Orientation::Vertical, rows)
        &&& self.rows@ == scan.tallied(Orientation::Horizontal, columns)
        &&& self.column_states@ == undecided(scan.window.2 as nat)
        &&& self.row_states@ == undecided(scan.window.3 as nat)
    }
}

fn sweep_rows(
    gray: &[u8],
    img_w: u32,
    img_h: u32,
    window: Region,
    progress: &mut Progress,
    frames: &mut Vec<Frame>,
    Ghost(scan): Ghost<Scan>,
)
    requires
        scan == (Scan { picture: edges::picture(gray@, img_w, img_h), window }),
        scan.showable(),
        old(progress).at(scan, 0, 0),
    ensures
        final(progress).at(scan, window.3 as nat, 0),
        canvas::shown(final(frames)@) == canvas::shown(old(frames)@) + scan.row_frames(0),
{
    let (ww, wh): (u32, u32) = (window.2 as u32, window.3 as u32);
    let ghost goal = canvas::shown(frames@) + scan.row_frames(0);
    let count: usize = frames_of_sweep(wh);
    let mut y: u32 = 0;
    let mut k: usize = 0;
    proof {
        canvas::lemma_batches(0, wh as int, SWEEP_REVEAL_FRAMES as int);
    }
    while k < count
        invariant
            scan == (Scan { picture: edges::picture(gray@, img_w, img_h), window }),
            scan.showable(),
            ww == window.2,
            wh == window.3,
            count == sweep_frames(wh as int),
            k <= count,
            y == sweep_start(k as int, wh as int),
            progress.at(scan, y as nat, 0),
            canvas::shown(frames@) + scan.row_frames(k as int) == goal,
        decreases count - k,
    {
        let ghost before = canvas::shown(frames@);
        let end: u32 = canvas::next_batch(k, wh as usize, SWEEP_REVEAL_FRAMES) as u32;
        proof {
            lemma_bars(scan, end as nat, 0);
        }
        let mut canvas: Canvas = progress.base.duplicate();
        mark_steps(&mut canvas, gray, img_w, img_h, window, y, end, Ghost(scan));
        tally_more(
            &mut progress.columns,
            gray,
            img_w,
            img_h,
            window,
            Orientation::Vertical,
            y,
            end,
            Ghost(scan),
        );
        canvas.line((0, end as i32 - 1), (ww as i32, end as i32 - 1), CURSOR);
        draw_histograms(
            &mut canvas,
            &progress.columns,
            &progress.rows,
            &progress.column_states,
            &progress.row_states,
        );
        canvas::push_frame(frames, &canvas, REVEAL_DELAY_MS);
        proof {
            let frame = scan.row_frame(y as int, end as int);
            assert(canvas::shown(frames@) == before.push(frame));
            assert(before.push(frame) + scan.row_frames(k + 1) =~= before + (seq![frame]
                + scan.row_frames(k + 1)));
        }
        y = end;
        k = k + 1;
    }
    proof {
        canvas::lemma_batches(count as int, wh as int, SWEEP_REVEAL_FRAMES as int);
        assert(canvas::shown(frames@) + scan.row_frames(k as int) =~= canvas::shown(frames@));
    }
}

fn sweep_columns(
    gray: &[u8],
    img_w: u32,
    img_h: u32,
    window: Region,
    progress: &mut Progress,
    frames: &mut Vec<Frame>,
    Ghost(scan): Ghost<Scan>,
)
    requires
        scan == (Scan { picture: edges::picture(gray@, img_w, img_h), window }),
        scan.showable(),
        old(progress).at(scan, window.3 as nat, 0),
    ensures
        final(progress).at(scan, window.3 as nat, window.2 as nat),
        canvas::shown(final(frames)@) == canvas::shown(old(frames)@) + scan.column_frames(0),
{
    let (ww, wh): (u32, u32) = (window.2 as u32, window.3 as u32);
    let ghost goal = canvas::shown(frames@) + scan.column_frames(0);
    let count: usize = frames_of_sweep(ww);
    let mut x: u32 = 0;
    let mut k: usize = 0;
    proof {
        canvas::lemma_batches(0, ww as int, SWEEP_REVEAL_FRAMES as int);
    }
    while k < count
        invariant
            scan == (Scan { picture: edges::picture(gray@, img_w, img_h), window }),
            scan.showable(),
            ww == window.2,
            wh == window.3,
            count == sweep_frames(ww as int),
            k <= count,
            x == sweep_start(k as int, ww as int),
            progress.at(scan, wh as nat, x as nat),
            canvas::shown(frames@) + scan.column_frames(k as int) == goal,
        decreases count - k,
    {
        let ghost before = canvas::shown(frames@);
        let end: u32 = canvas::next_batch(k, ww as usize, SWEEP_REVEAL_FRAMES) as u32;
        proof {
            lemma_bars(scan, wh as nat, end as nat);
        }
        let mut canvas: Canvas = progress.base.duplicate();
        tally_more(
            &mut progress.rows,
            gray,
            img_w,
            img_h,
            window,
            Orientation::Horizontal,
            x,
            end,
            Ghost(scan),
        );
        mark_steps(&mut canvas, gray, img_w, img_h, window, 0, wh, Ghost(scan));
        canvas.line((end as i32 - 1, 0), (end as i32 - 1, wh as i32), CURSOR);
        draw_histograms(
            &mut canvas,
            &progress.columns,
            &progress.rows,
            &progress.column_states,
            &progress.row_states,
        );
        canvas::push_frame(frames, &canvas, REVEAL_DELAY_MS);
        proof {
            let frame = scan.column_frame(end as int);
            assert(canvas::shown(frames@) == before.push(frame));
            assert(before.push(frame) + scan.column_frames(k + 1) =~= before + (seq![frame]
                + scan.column_frames(k + 1)));
        }
        x = end;
        k = k + 1;
    }
    proof {
        canvas::lemma_batches(count as int, ww as int, SWEEP_REVEAL_FRAMES as int);
        assert(canvas::shown(frames@) + scan.column_frames(k as int) =~= canvas::shown(frames@));
    }
}

fn draw_thresholds(
    gray: &[u8],
    img_w: u32,
    img_h: u32,
    window: Region,
    progress: &Progress,
    Ghost(scan): Ghost<Scan>,
) -> (canvas: Canvas)
    requires
        scan == (Scan { picture: edges::picture(gray@, img_w, img_h), window }),
        scan.showable(),
        progress.at(scan, window.3 as nat, window.2 as nat),
    ensures
        canvas::pixels(canvas) == scan.threshold_picture(),
{
    let (ww, wh): (u32, u32) = (window.2 as u32, window.3 as u32);
    proof {
        lemma_bars(scan, wh as nat, ww as nat);
    }
    let mut canvas: Canvas = progress.base.duplicate();
    mark_steps(&mut canvas, gray, img_w, img_h, window, 0, wh, Ghost(scan));
    draw_histograms(
        &mut canvas,
        &progress.columns,
        &progress.rows,
        &progress.column_states,
        &progress.row_states,
    );
    let bottom: i32 = (wh + MARGIN - HALF_BAR) as i32;
    canvas.line((0, bottom), (ww as i32, bottom), THRESHOLD_LINE);
    let right: i32 = (ww + MARGIN - HALF_BAR) as i32;
    canvas.line((right, 0), (right, wh as i32), THRESHOLD_LINE);
    canvas
}

/// An animation, and how many lines were found: with the check, and without it.
pub struct Rendering {
    pub frames: Vec<Frame>,
    pub vertical: usize,
    pub horizontal: usize,
    pub vertical_unchecked: usize,
    pub horizontal_unchecked: usize,
}

proof fn lemma_found(scan: Scan, orientation: Orientation, check: CheckKind)
    requires
        scan.showable(),
    ensures
        forall|i: int|
            0 <= i < scan.found(orientation, check).len() ==> {
                let (first, number, _, _) = fullscan::layout(scan.window, orientation);
                0 <= #[trigger] scan.found(orientation, check)[i] - first < number
            },
{
    fullscan::reported_lines_survive(scan.picture, scan.window, orientation, check.options());
    let found = scan.found(orientation, check);
    assert forall|i: int| 0 <= i < found.len() implies {
        let (first, number, _, _) = fullscan::layout(scan.window, orientation);
        0 <= #[trigger] found[i] - first < number
    } by {
        assert(found.contains(found[i]));
    }
}

/// Shows a full scan of a window as an animation: the sweep down, which marks every step to the left
/// and counts them by column; the sweep to the right, which counts the steps from above by row; all
/// counts with the length that is enough; and the lines that pass the check. A bar is blue if fewer
/// than half agree on its position, yellow if at least half do and it passes the check, and orange if
/// the check rejects it.
pub fn render(
    gray: &[u8],
    img_w: u32,
    img_h: u32,
    window: Region,
    check: CheckKind,
) -> (r: Rendering)
    requires
        (Scan { picture: edges::picture(gray@, img_w, img_h), window }).showable(),
    ensures
        ({
            let scan = Scan { picture: edges::picture(gray@, img_w, img_h), window };
            &&& canvas::shown(r.frames@) == scan.frames(check)
            &&& r.vertical == scan.found(Orientation::Vertical, check).len()
            &&& r.horizontal == scan.found(Orientation::Horizontal, check).len()
            &&& r.vertical_unchecked == scan.found(
                Orientation::Vertical,
                CheckKind::Plain,
            ).len()
            &&& r.horizontal_unchecked == scan.found(
                Orientation::Horizontal,
                CheckKind::Plain,
            ).len()
        }),
{
    let ghost scan = Scan { picture: edges::picture(gray@, img_w, img_h), window };
    let (wx, wy, ww, wh): (i32, i32, i32, i32) = window;
    let mut progress: Progress = Progress {
        base: canvas::crop(gray, img_w, window, MARGIN, MARGIN_BG),
        columns: no_counts(ww as u32),
        rows: no_counts(wh as u32),
        column_states: none_decided(ww as u32),
        row_states: none_decided(wh as u32),
    };
    assert(progress.columns@ =~= scan.tallied(Orientation::Vertical, 0));
    assert(progress.rows@ =~= scan.tallied(Orientation::Horizontal, 0));
    let mut frames: Vec<Frame> = Vec::new();
    assert(canvas::shown(frames@) =~= Seq::<FrameView>::empty());
    sweep_rows(gray, img_w, img_h, window, &mut progress, &mut frames, Ghost(scan));
    sweep_columns(gray, img_w, img_h, window, &mut progress, &mut frames, Ghost(scan));
    let thresholds: Canvas = draw_thresholds(gray, img_w, img_h, window, &progress, Ghost(scan));
    canvas::hold_frame(&mut frames, &thresholds, HOLD_DELAY_MS, HOLD_FRAME_COUNT);

    let (all_xs, all_ys) = fullscan::full_scan_lines(gray, img_w, img_h, window);
    let (xs, ys) = match check {
        CheckKind::Plain => fullscan::full_scan_lines(gray, img_w, img_h, window),
        CheckKind::Peak => fullscan::full_scan_lines_with_peak_check(gray, img_w, img_h, window),
        CheckKind::Uniformity => fullscan::full_scan_lines_with_uniformity_check(
            gray,
            img_w,
            img_h,
            window,
        ),
    };
    proof {
        lemma_bars(scan, wh as nat, ww as nat);
        assert(xs@ == scan.found(Orientation::Vertical, check));
        assert(ys@ == scan.found(Orientation::Horizontal, check));
        lemma_found(scan, Orientation::Vertical, check);
        lemma_found(scan, Orientation::Horizontal, check);
    }
    let column_states: Vec<BarState> = judge(
        gray,
        img_w,
        img_h,
        window,
        Orientation::Vertical,
        check,
        Ghost(scan),
    );
    let row_states: Vec<BarState> = judge(
        gray,
        img_w,
        img_h,
        window,
        Orientation::Horizontal,
        check,
        Ghost(scan),
    );
    let mut canvas: Canvas = progress.base;
    draw_histograms(&mut canvas, &progress.columns, &progress.rows, &column_states, &row_states);
    draw_upright_glows(&mut canvas, &xs, wx, ww as u32, wh as u32);
    draw_level_glows(&mut canvas, &ys, wy, ww as u32, wh as u32);
    canvas::hold_frame(&mut frames, &canvas, HOLD_DELAY_MS, FINAL_HOLD_FRAME_COUNT);
    assert(canvas::shown(frames@) =~= scan.frames(check));
    Rendering {
        frames,
        vertical: xs.len(),
        horizontal: ys.len(),
        vertical_unchecked: all_xs.len(),
        horizontal_unchecked: all_ys.len(),
    }
}

proof fn lemma_bars_sized(
    p: Pixels,
    counts: Seq<u32>,
    states: Seq<BarState>,
    max: u32,
    n: nat,
    width: int,
    height: int,
)
    requires
        canvas::sized(p, width, height),
    ensures
        canvas::sized(column_bars(p, counts, states, max, n), width, height),
        canvas::sized(row_bars(p, counts, states, max, n), width, height),
    decreases n,
{
    if n > 0 {
        lemma_bars_sized(p, counts, states, max, (n - 1) as nat, width, height);
    }
}

proof fn lemma_histograms_sized(p: Pixels, b: Bars, width: int, height: int)
    requires
        canvas::sized(p, width, height),
    ensures
        canvas::sized(with_histograms(p, b), width, height),
{
    let (w, h) = (b.columns.len() as u32, b.rows.len() as u32);
    let cleared = canvas::filled(
        canvas::filled(p, 0, h as int, w as int, MARGIN as int, MARGIN_BG),
        w as int,
        0,
        MARGIN as int,
        h as int,
        MARGIN_BG,
    );
    let barred = column_bars(cleared, b.columns, b.column_states, h, b.columns.len());
    lemma_bars_sized(cleared, b.columns, b.column_states, h, b.columns.len(), width, height);
    lemma_bars_sized(barred, b.rows, b.row_states, w, b.rows.len(), width, height);
}

proof fn lemma_glows_sized(p: Pixels, at: Seq<i32>, from: int, to: int, n: nat, width: int, height: int)
    requires
        canvas::sized(p, width, height),
    ensures
        canvas::sized(upright_glows(p, at, from, to, n), width, height),
        canvas::sized(level_glows(p, at, from, to, n), width, height),
    decreases n,
{
    if n > 0 {
        lemma_glows_sized(p, at, from, to, (n - 1) as nat, width, height);
    }
}

proof fn lemma_row_frames_sized(scan: Scan, k: int)
    requires
        scan.showable(),
        0 <= k <= sweep_frames(scan.window.3 as int),
    ensures
        canvas::all_sized(scan.row_frames(k), scan.window.2 + MARGIN, scan.window.3 + MARGIN),
        scan.row_frames(k).len() == sweep_frames(scan.window.3 as int) - k,
    decreases sweep_frames(scan.window.3 as int) - k,
{
    let (width, height) = (scan.window.2 + MARGIN, scan.window.3 + MARGIN);
    let wh = scan.window.3 as int;
    if k < sweep_frames(wh) {
        let (from, to) = (sweep_start(k, wh), sweep_start(k + 1, wh));
        lemma_row_frames_sized(scan, k + 1);
        let swept = canvas::lined(
            scan.marked(from, to),
            (0, to - 1),
            (scan.window.2 as int, to - 1),
            CURSOR,
        );
        lemma_histograms_sized(swept, scan.bars(to as nat, 0), width, height);
    }
}

proof fn lemma_column_frames_sized(scan: Scan, k: int)
    requires
        scan.showable(),
        0 <= k <= sweep_frames(scan.window.2 as int),
    ensures
        canvas::all_sized(scan.column_frames(k), scan.window.2 + MARGIN, scan.window.3 + MARGIN),
        scan.column_frames(k).len() == sweep_frames(scan.window.2 as int) - k,
    decreases sweep_frames(scan.window.2 as int) - k,
{
    let (width, height) = (scan.window.2 + MARGIN, scan.window.3 + MARGIN);
    let ww = scan.window.2 as int;
    if k < sweep_frames(ww) {
        let to = sweep_start(k + 1, ww);
        lemma_column_frames_sized(scan, k + 1);
        let swept = canvas::lined(
            scan.marked(0, scan.window.3 as int),
            (to - 1, 0),
            (to - 1, scan.window.3 as int),
            CURSOR,
        );
        lemma_histograms_sized(swept, scan.bars(scan.window.3 as nat, to as nat), width, height);
    }
}

/// All frames of an animation have the same size: the window and its strips. Each sweep takes
/// [`SWEEP_REVEAL_FRAMES`] of them, unless there are fewer rows or columns, and the last ones show
/// what was found.
pub proof fn frames_have_one_size(scan: Scan, check: CheckKind)
    requires
        scan.showable(),
    ensures
        canvas::all_sized(scan.frames(check), scan.window.2 + MARGIN, scan.window.3 + MARGIN),
        scan.frames(check).len() == sweep_frames(scan.window.3 as int) + sweep_frames(
            scan.window.2 as int,
        ) + HOLD_FRAME_COUNT + FINAL_HOLD_FRAME_COUNT,
        scan.frames(check).last().pixels == scan.final_picture(check),
{
    let (wx, wy, ww, wh) = scan.window;
    let (width, height) = (ww + MARGIN, wh + MARGIN);
    lemma_row_frames_sized(scan, 0);
    lemma_column_frames_sized(scan, 0);
    lemma_histograms_sized(
        scan.marked(0, wh as int),
        scan.bars(wh as nat, ww as nat),
        width,
        height,
    );
    assert(canvas::sized(scan.threshold_picture(), width, height));
    let (xs, ys) = (
        scan.found(Orientation::Vertical, check),
        scan.found(Orientation::Horizontal, check),
    );
    let b = Bars {
        columns: scan.tallied(Orientation::Vertical, wh as nat),
        rows: scan.tallied(Orientation::Horizontal, ww as nat),
        column_states: scan.fates(Orientation::Vertical, check),
        row_states: scan.fates(Orientation::Horizontal, check),
    };
    lemma_histograms_sized(scan.base(), b, width, height);
    let judged = with_histograms(scan.base(), b);
    lemma_glows_sized(judged, xs, wx as int, wh as int, xs.len(), width, height);
    lemma_glows_sized(
        upright_glows(judged, xs, wx as int, wh as int, xs.len()),
        ys,
        wy as int,
        ww as int,
        ys.len(),
        width,
        height,
    );
    assert(canvas::sized(scan.final_picture(check), width, height));
}

} // verus!
