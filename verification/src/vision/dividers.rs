//! Panels between divider lines: a column and row projection over raw pixel steps.

use vstd::prelude::*;

use crate::vision::edges::{self, Orientation, Picture, DIVIDER_RAW_DIFF_THRESHOLD};
use crate::vision::lines::{
    self, LineStats, DIVIDER_MERGE_GAP, DIVIDER_PEAK_OFFSET_MAX, DIVIDER_PEAK_OFFSET_MIN,
    DIVIDER_PEAK_RATIO_DEN, DIVIDER_PEAK_RATIO_NUM,
};

verus! {

/// A rectangle: left, top, width and height in pixels.
pub type Region = (i32, i32, i32, i32);

/// A rectangle at least this big in both dimensions is a panel and not a control.
pub const MIN_PANEL_SIZE: i32 = 150;

/// A line with edge pixels along at least this percentage of the window is a divider.
pub const DIVIDER_COVERAGE_PERCENT: u32 = 35;

/// A line whose ends are at least this percentage of the window apart may be a divider, too: content
/// that crosses a divider interrupts it, but it still runs from edge to edge.
pub const DIVIDER_SPAN_COVERAGE_PERCENT: u32 = 85;

/// Edge pixels that such a line needs at least, as a percentage of the window, so that two specks at
/// opposite edges do not make a divider.
pub const DIVIDER_MIN_DENSITY_PERCENT: u32 = 15;

/// How deep panels are searched for dividers of their own.
pub const MAX_DIVIDER_DEPTH: u32 = 2;

/// A panel is searched without a margin this wide, in which the dividers that delimit it lie.
pub const RECURSE_INSET: i32 = DIVIDER_MERGE_GAP + 2;

/// First pixel of a window along an axis.
pub open spec fn visible_start(start: int) -> int {
    if start < 0 {
        0
    } else {
        start
    }
}

/// End of a window along an axis, within a picture of `size` pixels.
pub open spec fn visible_end(end: int, size: int) -> int {
    if end < 0 {
        0
    } else if end < size {
        end
    } else {
        size
    }
}

/// Whether the pixel `i` pixels down the column `c` of the visible part has a step from the left.
/// The first column has no neighbor in the window.
pub open spec fn column_step(p: Picture, x0: int, y0: int, c: int) -> spec_fn(int) -> bool {
    |i: int|
        c > 0 && p.step(x0 + c, y0 + i, Orientation::Vertical) >= DIVIDER_RAW_DIFF_THRESHOLD
}

/// Whether the pixel `i` pixels along the row `r` of the visible part has a step from above.
pub open spec fn row_step(p: Picture, x0: int, y0: int, r: int) -> spec_fn(int) -> bool {
    |i: int|
        r > 0 && p.step(x0 + i, y0 + r, Orientation::Horizontal) >= DIVIDER_RAW_DIFF_THRESHOLD
}

/// Statistics of the columns of `x0..x1` over the rows `y0..y1`.
pub open spec fn column_stats(p: Picture, x0: int, x1: int, y0: int, y1: int) -> Seq<LineStats> {
    Seq::new(
        (x1 - x0) as nat,
        |c: int| LineStats::of(column_step(p, x0, y0, c), (y1 - y0) as nat),
    )
}

/// Statistics of the rows of `y0..y1` over the columns `x0..x1`.
pub open spec fn row_stats(p: Picture, x0: int, x1: int, y0: int, y1: int) -> Seq<LineStats> {
    Seq::new(
        (y1 - y0) as nat,
        |r: int| LineStats::of(row_step(p, x0, y0, r), (x1 - x0) as nat),
    )
}

/// The numbers of edge pixels.
pub open spec fn counts_of(stats: Seq<LineStats>) -> Seq<u32> {
    Seq::new(stats.len(), |i: int| stats[i].count)
}

/// Whether the line at `i` is a divider of a window that is `extent` pixels long along it.
pub open spec fn divides(stats: Seq<LineStats>, extent: int, i: int) -> bool {
    &&& lines::is_divider(
        stats[i],
        lines::share(extent, DIVIDER_COVERAGE_PERCENT as int) as u32,
        lines::share(extent, DIVIDER_SPAN_COVERAGE_PERCENT as int) as u32,
        lines::share(extent, DIVIDER_MIN_DENSITY_PERCENT as int) as u32,
    )
    &&& lines::local_peak(
        counts_of(stats),
        i,
        DIVIDER_PEAK_OFFSET_MIN as int,
        DIVIDER_PEAK_OFFSET_MAX as int,
        DIVIDER_PEAK_RATIO_NUM as int,
        DIVIDER_PEAK_RATIO_DEN as int,
    )
}

/// Positions of the dividers among the first `n` lines, counted from `origin`.
pub open spec fn divider_positions(
    stats: Seq<LineStats>,
    origin: int,
    extent: int,
    n: nat,
) -> Seq<i32>
    decreases n,
{
    if n == 0 {
        Seq::empty()
    } else {
        let before = divider_positions(stats, origin, extent, (n - 1) as nat);
        if divides(stats, extent, n - 1) {
            before.push((origin + n - 1) as i32)
        } else {
            before
        }
    }
}

/// Positions at which the dividers among the lines cut the window.
pub open spec fn cuts(stats: Seq<LineStats>, origin: int, extent: int) -> Seq<i32> {
    lines::merged_positions(
        divider_positions(stats, origin, extent, stats.len()),
        DIVIDER_MERGE_GAP as int,
    )
}

/// The vertical cuts of a window.
pub open spec fn column_cuts(p: Picture, window: Region) -> Seq<i32> {
    let (x0, x1) = (
        visible_start(window.0 as int),
        visible_end(window.0 + window.2, p.width as int),
    );
    let (y0, y1) = (
        visible_start(window.1 as int),
        visible_end(window.1 + window.3, p.height as int),
    );
    cuts(column_stats(p, x0, x1, y0, y1), x0, y1 - y0)
}

/// The horizontal cuts of a window.
pub open spec fn row_cuts(p: Picture, window: Region) -> Seq<i32> {
    let (x0, x1) = (
        visible_start(window.0 as int),
        visible_end(window.0 + window.2, p.width as int),
    );
    let (y0, y1) = (
        visible_start(window.1 as int),
        visible_end(window.1 + window.3, p.height as int),
    );
    cuts(row_stats(p, x0, x1, y0, y1), y0, x1 - x0)
}

/// Whether a rectangle is big enough for a panel.
pub open spec fn panel_sized(r: Region) -> bool {
    r.2 >= MIN_PANEL_SIZE && r.3 >= MIN_PANEL_SIZE
}

/// Whether a window is searched at all: it is big enough, and some of it is in the picture.
pub open spec fn searched(p: Picture, window: Region) -> bool {
    &&& panel_sized(window)
    &&& visible_start(window.0 as int) < visible_end(window.0 + window.2, p.width as int)
    &&& visible_start(window.1 as int) < visible_end(window.1 + window.3, p.height as int)
}

/// The strip of `window` between two cuts: a column of full height, or a row of full width.
pub open spec fn strip(window: Region, from: i32, to: i32, columns: bool) -> Region {
    if columns {
        (from, window.1, (to - from) as i32, window.3)
    } else {
        (window.0, from, window.2, (to - from) as i32)
    }
}

/// How much a panel is shrunk on every side before it is searched.
pub open spec fn shrink(r: Region) -> int {
    let half_w = (r.2 - 1) / 2;
    let half_h = (r.3 - 1) / 2;
    let half = if half_w < half_h {
        half_w
    } else {
        half_h
    };
    if half < 0 {
        0
    } else if half < RECURSE_INSET {
        half
    } else {
        RECURSE_INSET as int
    }
}

/// The panel without its margin.
pub open spec fn inset_spec(r: Region) -> Region {
    (
        (r.0 + shrink(r)) as i32,
        (r.1 + shrink(r)) as i32,
        (r.2 - 2 * shrink(r)) as i32,
        (r.3 - 2 * shrink(r)) as i32,
    )
}

/// The positions that delimit the strips of a window: its own bounds, and the cuts in between.
pub open spec fn bounded(inner: Seq<i32>, start: i32, end: i32) -> Seq<i32> {
    seq![start] + inner + seq![end]
}

/// The panels of `window`, searched `depth` levels deep. Where there are vertical dividers, these
/// are the columns between them, each followed by the panels inside of it; where there are only
/// horizontal ones, the rows; where there is none, nothing. A row across columns that exist would
/// join what lies at the same height in unrelated panels.
pub open spec fn panels(p: Picture, window: Region, depth: nat) -> Seq<Region>
    decreases depth, 0nat,
{
    if depth == 0 || !searched(p, window) {
        Seq::empty()
    } else {
        let xs = column_cuts(p, window);
        let ys = row_cuts(p, window);
        if xs.len() > 0 {
            strips(
                p,
                window,
                bounded(xs, window.0, (window.0 + window.2) as i32),
                true,
                xs.len() + 1,
                (depth - 1) as nat,
            )
        } else if ys.len() > 0 {
            strips(
                p,
                window,
                bounded(ys, window.1, (window.1 + window.3) as i32),
                false,
                ys.len() + 1,
                (depth - 1) as nat,
            )
        } else {
            Seq::empty()
        }
    }
}

/// The panels among the first `n` strips between the positions `at`, each followed by the panels
/// inside of it.
pub open spec fn strips(
    p: Picture,
    window: Region,
    at: Seq<i32>,
    columns: bool,
    n: nat,
    depth: nat,
) -> Seq<Region>
    decreases depth, n,
{
    if n == 0 {
        Seq::empty()
    } else {
        let before = strips(p, window, at, columns, (n - 1) as nat, depth);
        let r = strip(window, at[n - 1], at[n as int], columns);
        if panel_sized(r) {
            before.push(r) + panels(p, inset_spec(r), depth)
        } else {
            before
        }
    }
}

/// A window whose far corner has coordinates, if it is big enough to be searched.
pub open spec fn window_fits(window: Region) -> bool {
    panel_sized(window) ==> window.0 + window.2 <= i32::MAX && window.1 + window.3 <= i32::MAX
}

/// Whether the far corner of a window has coordinates, if panels are looked for in it.
pub fn fits_in_coordinates(window: Region) -> (r: bool)
    ensures
        r == window_fits(window),
{
    let (x, y, w, h): (i32, i32, i32, i32) = window;
    if w < MIN_PANEL_SIZE || h < MIN_PANEL_SIZE {
        return true;
    }
    x as i64 + w as i64 <= i32::MAX as i64 && y as i64 + h as i64 <= i32::MAX as i64
}

/// Shrinks a region by [`RECURSE_INSET`] on every side, but never below one pixel.
pub fn inset(r: Region) -> (s: Region)
    requires
        r.0 + shrink(r) <= i32::MAX,
        r.1 + shrink(r) <= i32::MAX,
    ensures
        s == inset_spec(r),
{
    let (x, y, w, h) = r;
    let least: i32 = if w < h {
        w
    } else {
        h
    };
    let by: i32 = if least < 1 {
        0
    } else if (least - 1) / 2 < RECURSE_INSET {
        (least - 1) / 2
    } else {
        RECURSE_INSET
    };
    (x + by, y + by, w - by * 2, h - by * 2)
}

fn column_stats_at(
    gray: &[u8],
    img_w: u32,
    img_h: u32,
    x0: u32,
    y0: u32,
    y1: u32,
    c: u32,
) -> (s: LineStats)
    requires
        edges::picture(gray@, img_w, img_h).complete(),
        x0 + c < img_w,
        y0 <= y1 <= img_h,
    ensures
        s == LineStats::of(
            column_step(edges::picture(gray@, img_w, img_h), x0 as int, y0 as int, c as int),
            (y1 - y0) as nat,
        ),
{
    let ghost p = edges::picture(gray@, img_w, img_h);
    let ghost test = column_step(p, x0 as int, y0 as int, c as int);
    let mut s: LineStats = LineStats::default();
    let mut y: u32 = y0;
    while y < y1
        invariant
            y0 <= y <= y1 <= img_h,
            x0 + c < img_w,
            p == edges::picture(gray@, img_w, img_h),
            p.complete(),
            test == column_step(p, x0 as int, y0 as int, c as int),
            s == LineStats::of(test, (y - y0) as nat),
            s.count <= y - y0,
        decreases y1 - y,
    {
        if c > 0 && edges::step_size(gray, img_w, img_h, x0 + c, y, Orientation::Vertical)
            >= DIVIDER_RAW_DIFF_THRESHOLD {
            s.record(y - y0);
        }
        y = y + 1;
    }
    s
}

fn row_stats_at(
    gray: &[u8],
    img_w: u32,
    img_h: u32,
    x0: u32,
    x1: u32,
    y0: u32,
    r: u32,
) -> (s: LineStats)
    requires
        edges::picture(gray@, img_w, img_h).complete(),
        x0 <= x1 <= img_w,
        y0 + r < img_h,
    ensures
        s == LineStats::of(
            row_step(edges::picture(gray@, img_w, img_h), x0 as int, y0 as int, r as int),
            (x1 - x0) as nat,
        ),
{
    let ghost p = edges::picture(gray@, img_w, img_h);
    let ghost test = row_step(p, x0 as int, y0 as int, r as int);
    let mut s: LineStats = LineStats::default();
    let mut x: u32 = x0;
    while x < x1
        invariant
            x0 <= x <= x1 <= img_w,
            y0 + r < img_h,
            p == edges::picture(gray@, img_w, img_h),
            p.complete(),
            test == row_step(p, x0 as int, y0 as int, r as int),
            s == LineStats::of(test, (x - x0) as nat),
            s.count <= x - x0,
        decreases x1 - x,
    {
        if r > 0 && edges::step_size(gray, img_w, img_h, x, y0 + r, Orientation::Horizontal)
            >= DIVIDER_RAW_DIFF_THRESHOLD {
            s.record(x - x0);
        }
        x = x + 1;
    }
    s
}

/// Positions at which the dividers among the lines cut the window.
fn divider_cuts(stats: &Vec<LineStats>, origin: u32, extent: u32) -> (at: Vec<i32>)
    requires
        origin + stats@.len() <= i32::MAX,
        forall|i: int|
            0 <= i < stats@.len() ==> {
                let s = #[trigger] stats@[i];
                s.first is Some && s.last is Some ==> s.first->0 <= s.last->0
            },
    ensures
        at@ == cuts(stats@, origin as int, extent as int),
{
    let mut counts: Vec<u32> = Vec::new();
    let mut k: usize = 0;
    while k < stats.len()
        invariant
            k <= stats@.len(),
            counts@.len() == k,
            forall|i: int| 0 <= i < k ==> #[trigger] counts@[i] == stats@[i].count,
        decreases stats.len() - k,
    {
        counts.push(stats[k].count);
        k = k + 1;
    }
    assert(counts@ =~= counts_of(stats@));
    let density: u32 = lines::least_share(extent, DIVIDER_COVERAGE_PERCENT);
    let span: u32 = lines::least_share(extent, DIVIDER_SPAN_COVERAGE_PERCENT);
    let least: u32 = lines::least_share(extent, DIVIDER_MIN_DENSITY_PERCENT);
    let mut at: Vec<i32> = Vec::new();
    let mut i: usize = 0;
    while i < stats.len()
        invariant
            i <= stats@.len(),
            origin + stats@.len() <= i32::MAX,
            counts@ == counts_of(stats@),
            forall|i: int|
                0 <= i < stats@.len() ==> {
                    let s = #[trigger] stats@[i];
                    s.first is Some && s.last is Some ==> s.first->0 <= s.last->0
                },
            density == lines::share(extent as int, DIVIDER_COVERAGE_PERCENT as int),
            span == lines::share(extent as int, DIVIDER_SPAN_COVERAGE_PERCENT as int),
            least == lines::share(extent as int, DIVIDER_MIN_DENSITY_PERCENT as int),
            at@ == divider_positions(stats@, origin as int, extent as int, i as nat),
        decreases stats.len() - i,
    {
        if lines::qualifies(&stats[i], density, span, least) && lines::is_local_peak(
            counts.as_slice(),
            i,
            DIVIDER_PEAK_OFFSET_MIN,
            DIVIDER_PEAK_OFFSET_MAX,
            DIVIDER_PEAK_RATIO_NUM,
            DIVIDER_PEAK_RATIO_DEN,
        ) {
            at.push(origin as i32 + i as i32);
        }
        i = i + 1;
    }
    lines::merge_adjacent(&mut at, DIVIDER_MERGE_GAP);
    at
}

proof fn lemma_positions(stats: Seq<LineStats>, origin: int, extent: int, n: nat)
    requires
        0 <= origin,
        origin + n <= i32::MAX,
    ensures
        forall|v: i32|
            #[trigger] divider_positions(stats, origin, extent, n).contains(v) ==> origin <= v
                < origin + n,
    decreases n,
{
    if n > 0 {
        lemma_positions(stats, origin, extent, (n - 1) as nat);
        let before = divider_positions(stats, origin, extent, (n - 1) as nat);
        let here = divider_positions(stats, origin, extent, n);
        assert forall|v: i32| #[trigger] here.contains(v) implies origin <= v < origin + n by {
            let i = choose|i: int| 0 <= i < here.len() && here[i] == v;
            if i < before.len() {
                assert(before[i] == v);
                assert(before.contains(v));
            }
        }
    }
}

/// The cuts of a window lie within it, in ascending order.
pub(crate) proof fn lemma_cuts(stats: Seq<LineStats>, origin: int, extent: int)
    requires
        0 <= origin,
        origin + stats.len() <= i32::MAX,
    ensures
        lines::spaced(cuts(stats, origin, extent), DIVIDER_MERGE_GAP as int),
        forall|i: int|
            0 <= i < cuts(stats, origin, extent).len() ==> origin <= #[trigger] cuts(
                stats,
                origin,
                extent,
            )[i] < origin + stats.len(),
{
    let found = divider_positions(stats, origin, extent, stats.len());
    let at = cuts(stats, origin, extent);
    lemma_positions(stats, origin, extent, stats.len());
    lines::merging_spaces_and_covers(found, DIVIDER_MERGE_GAP as int);
    assert forall|i: int| 0 <= i < at.len() implies origin <= #[trigger] at[i] < origin
        + stats.len() by {
        assert(at.contains(at[i]));
        assert(found.contains(at[i]));
    }
}

/// Whether positions ascend from the start of a window to its end.
pub open spec fn delimits(at: Seq<i32>, start: int, end: int) -> bool {
    &&& at.len() >= 2
    &&& at[0] == start
    &&& at.last() == end
    &&& forall|i: int, j: int| 0 <= i <= j < at.len() ==> #[trigger] at[i] <= #[trigger] at[j]
}

pub(crate) proof fn lemma_bounded(inner: Seq<i32>, start: i32, end: i32)
    requires
        lines::spaced(inner, DIVIDER_MERGE_GAP as int),
        start <= end,
        forall|i: int| 0 <= i < inner.len() ==> start <= #[trigger] inner[i] <= end,
    ensures
        delimits(bounded(inner, start, end), start as int, end as int),
        bounded(inner, start, end).len() == inner.len() + 2,
{
    let at = bounded(inner, start, end);
    assert forall|i: int, j: int| 0 <= i <= j < at.len() implies #[trigger] at[i]
        <= #[trigger] at[j] by {
        if 0 < i && j < at.len() - 1 && i < j {
            assert(inner[j - 1] - inner[i - 1] > DIVIDER_MERGE_GAP);
        }
    }
}

/// The far corner of a searched window, the sizes of its visible part and its cuts.
proof fn lemma_searched(p: Picture, window: Region)
    requires
        searched(p, window),
        window_fits(window),
    ensures
        delimits(
            bounded(column_cuts(p, window), window.0, (window.0 + window.2) as i32),
            window.0 as int,
            window.0 + window.2,
        ),
        delimits(
            bounded(row_cuts(p, window), window.1, (window.1 + window.3) as i32),
            window.1 as int,
            window.1 + window.3,
        ),
        bounded(column_cuts(p, window), window.0, (window.0 + window.2) as i32).len()
            == column_cuts(p, window).len() + 2,
        bounded(row_cuts(p, window), window.1, (window.1 + window.3) as i32).len() == row_cuts(
            p,
            window,
        ).len() + 2,
{
    let (x0, x1) = (
        visible_start(window.0 as int),
        visible_end(window.0 + window.2, p.width as int),
    );
    let (y0, y1) = (
        visible_start(window.1 as int),
        visible_end(window.1 + window.3, p.height as int),
    );
    lemma_cuts(column_stats(p, x0, x1, y0, y1), x0, y1 - y0);
    lemma_cuts(row_stats(p, x0, x1, y0, y1), y0, x1 - x0);
    lemma_bounded(column_cuts(p, window), window.0, (window.0 + window.2) as i32);
    lemma_bounded(row_cuts(p, window), window.1, (window.1 + window.3) as i32);
}

/// The vertical cuts of the visible part of a window.
fn scan_columns(
    gray: &[u8],
    img_w: u32,
    img_h: u32,
    x0: u32,
    x1: u32,
    y0: u32,
    y1: u32,
) -> (at: Vec<i32>)
    requires
        edges::picture(gray@, img_w, img_h).complete(),
        x0 <= x1 <= img_w,
        y0 <= y1 <= img_h,
        x1 <= i32::MAX,
    ensures
        at@ == cuts(
            column_stats(
                edges::picture(gray@, img_w, img_h),
                x0 as int,
                x1 as int,
                y0 as int,
                y1 as int,
            ),
            x0 as int,
            y1 - y0,
        ),
{
    let ghost p = edges::picture(gray@, img_w, img_h);
    let mut columns: Vec<LineStats> = Vec::new();
    let mut c: u32 = 0;
    while c < x1 - x0
        invariant
            p == edges::picture(gray@, img_w, img_h),
            p.complete(),
            x0 <= x1 <= img_w,
            y0 <= y1 <= img_h,
            c <= x1 - x0,
            columns@.len() == c,
            forall|i: int|
                0 <= i < c ==> #[trigger] columns@[i] == LineStats::of(
                    column_step(p, x0 as int, y0 as int, i),
                    (y1 - y0) as nat,
                ),
        decreases x1 - x0 - c,
    {
        columns.push(column_stats_at(gray, img_w, img_h, x0, y0, y1, c));
        c = c + 1;
    }
    proof {
        assert(columns@ =~= column_stats(p, x0 as int, x1 as int, y0 as int, y1 as int));
        assert forall|i: int| 0 <= i < columns@.len() implies {
            let s = #[trigger] columns@[i];
            s.first is Some && s.last is Some ==> s.first->0 <= s.last->0
        } by {
            lines::stats_summarise_the_line(
                column_step(p, x0 as int, y0 as int, i),
                (y1 - y0) as nat,
            );
        }
    }
    divider_cuts(&columns, x0, y1 - y0)
}

/// The horizontal cuts of the visible part of a window.
fn scan_rows(
    gray: &[u8],
    img_w: u32,
    img_h: u32,
    x0: u32,
    x1: u32,
    y0: u32,
    y1: u32,
) -> (at: Vec<i32>)
    requires
        edges::picture(gray@, img_w, img_h).complete(),
        x0 <= x1 <= img_w,
        y0 <= y1 <= img_h,
        y1 <= i32::MAX,
    ensures
        at@ == cuts(
            row_stats(
                edges::picture(gray@, img_w, img_h),
                x0 as int,
                x1 as int,
                y0 as int,
                y1 as int,
            ),
            y0 as int,
            x1 - x0,
        ),
{
    let ghost p = edges::picture(gray@, img_w, img_h);
    let mut rows: Vec<LineStats> = Vec::new();
    let mut r: u32 = 0;
    while r < y1 - y0
        invariant
            p == edges::picture(gray@, img_w, img_h),
            p.complete(),
            x0 <= x1 <= img_w,
            y0 <= y1 <= img_h,
            r <= y1 - y0,
            rows@.len() == r,
            forall|i: int|
                0 <= i < r ==> #[trigger] rows@[i] == LineStats::of(
                    row_step(p, x0 as int, y0 as int, i),
                    (x1 - x0) as nat,
                ),
        decreases y1 - y0 - r,
    {
        rows.push(row_stats_at(gray, img_w, img_h, x0, x1, y0, r));
        r = r + 1;
    }
    proof {
        assert(rows@ =~= row_stats(p, x0 as int, x1 as int, y0 as int, y1 as int));
        assert forall|i: int| 0 <= i < rows@.len() implies {
            let s = #[trigger] rows@[i];
            s.first is Some && s.last is Some ==> s.first->0 <= s.last->0
        } by {
            lines::stats_summarise_the_line(row_step(p, x0 as int, y0 as int, i), (x1 - x0) as nat);
        }
    }
    divider_cuts(&rows, y0, x1 - x0)
}

/// The panels of `window`, appended to `out`.
pub fn detect_dividers_recursive(
    gray: &[u8],
    img_w: u32,
    img_h: u32,
    window: Region,
    depth: u32,
    out: &mut Vec<Region>,
)
    requires
        edges::picture(gray@, img_w, img_h).complete(),
        window_fits(window),
    ensures
        final(out)@ == old(out)@ + panels(
            edges::picture(gray@, img_w, img_h),
            window,
            depth as nat,
        ),
    decreases depth, 0nat,
{
    let ghost p = edges::picture(gray@, img_w, img_h);
    let ghost before = out@;
    let (wx, wy, ww, wh) = window;
    assert(before + Seq::<Region>::empty() =~= before);
    if depth == 0 || ww < MIN_PANEL_SIZE || wh < MIN_PANEL_SIZE {
        return;
    }
    let (end_x, end_y) = (wx + ww, wy + wh);
    let x0: u32 = if wx < 0 {
        0
    } else {
        wx as u32
    };
    let y0: u32 = if wy < 0 {
        0
    } else {
        wy as u32
    };
    let x1: u32 = if end_x < 0 {
        0
    } else if (end_x as u32) < img_w {
        end_x as u32
    } else {
        img_w
    };
    let y1: u32 = if end_y < 0 {
        0
    } else if (end_y as u32) < img_h {
        end_y as u32
    } else {
        img_h
    };
    if x0 >= x1 || y0 >= y1 {
        return;
    }
    proof {
        lemma_searched(p, window);
    }
    let xs: Vec<i32> = scan_columns(gray, img_w, img_h, x0, x1, y0, y1);
    let ys: Vec<i32> = scan_rows(gray, img_w, img_h, x0, x1, y0, y1);
    assert(xs@ == column_cuts(p, window));
    assert(ys@ == row_cuts(p, window));
    let had_x_dividers: bool = xs.len() > 0;
    let had_y_dividers: bool = ys.len() > 0;
    if had_x_dividers {
        let at: Vec<i32> = enclose(xs, wx, end_x);
        emit_strips(gray, img_w, img_h, window, &at, true, depth - 1, out);
    } else if had_y_dividers {
        let at: Vec<i32> = enclose(ys, wy, end_y);
        emit_strips(gray, img_w, img_h, window, &at, false, depth - 1, out);
    }
}

/// The cuts with the window's own bounds around them.
fn enclose(inner: Vec<i32>, start: i32, end: i32) -> (at: Vec<i32>)
    ensures
        at@ == bounded(inner@, start, end),
{
    let ghost given = inner@;
    let mut at: Vec<i32> = inner;
    at.insert(0, start);
    at.push(end);
    assert(at@ =~= bounded(given, start, end));
    at
}

/// The panels among the strips of `window`, each followed by the panels inside of it.
fn emit_strips(
    gray: &[u8],
    img_w: u32,
    img_h: u32,
    window: Region,
    at: &Vec<i32>,
    columns: bool,
    depth: u32,
    out: &mut Vec<Region>,
)
    requires
        edges::picture(gray@, img_w, img_h).complete(),
        panel_sized(window),
        window_fits(window),
        columns ==> delimits(at@, window.0 as int, window.0 + window.2),
        !columns ==> delimits(at@, window.1 as int, window.1 + window.3),
    ensures
        final(out)@ == old(out)@ + strips(
            edges::picture(gray@, img_w, img_h),
            window,
            at@,
            columns,
            (at@.len() - 1) as nat,
            depth as nat,
        ),
    decreases depth, 1nat,
{
    let ghost p = edges::picture(gray@, img_w, img_h);
    let ghost before = out@;
    let mut i: usize = 1;
    assert(before + Seq::<Region>::empty() =~= before);
    while i < at.len()
        invariant
            1 <= i <= at@.len(),
            p == edges::picture(gray@, img_w, img_h),
            p.complete(),
            panel_sized(window),
            window_fits(window),
            columns ==> delimits(at@, window.0 as int, window.0 + window.2),
            !columns ==> delimits(at@, window.1 as int, window.1 + window.3),
            out@ == before + strips(p, window, at@, columns, (i - 1) as nat, depth as nat),
        decreases at.len() - i,
    {
        let (from, to) = (at[i - 1], at[i]);
        proof {
            assert(at@[0] <= at@[i - 1] <= at@[i as int] <= at@[at@.len() - 1]);
        }
        let size: i32 = to - from;
        let r: Region = if columns {
            (from, window.1, size, window.3)
        } else {
            (window.0, from, window.2, size)
        };
        if size >= MIN_PANEL_SIZE {
            let ghost found = out@;
            out.push(r);
            detect_dividers_recursive(gray, img_w, img_h, inset(r), depth, out);
            proof {
                let earlier = strips(p, window, at@, columns, (i - 1) as nat, depth as nat);
                let inside = panels(p, inset_spec(r), depth as nat);
                assert(found.push(r) + inside =~= before + (earlier.push(r) + inside));
            }
        }
        i = i + 1;
    }
}

/// The panels that the divider lines of a window leave, searched [`MAX_DIVIDER_DEPTH`] levels deep:
/// a line that divides one panel only is too short beside the whole window.
pub fn detect_dividers_as_grid(
    gray: &[u8],
    img_w: u32,
    img_h: u32,
    window: Region,
) -> (regions: Vec<Region>)
    requires
        edges::picture(gray@, img_w, img_h).complete(),
        window_fits(window),
    ensures
        regions@ == panels(
            edges::picture(gray@, img_w, img_h),
            window,
            MAX_DIVIDER_DEPTH as nat,
        ),
{
    let mut regions: Vec<Region> = Vec::new();
    detect_dividers_recursive(gray, img_w, img_h, window, MAX_DIVIDER_DEPTH, &mut regions);
    assert(Seq::<Region>::empty() + panels(
        edges::picture(gray@, img_w, img_h),
        window,
        MAX_DIVIDER_DEPTH as nat,
    ) =~= panels(edges::picture(gray@, img_w, img_h), window, MAX_DIVIDER_DEPTH as nat));
    regions
}

/// Whether `r` lies within `window`.
pub open spec fn within(r: Region, window: Region) -> bool {
    &&& window.0 <= r.0
    &&& window.1 <= r.1
    &&& r.0 + r.2 <= window.0 + window.2
    &&& r.1 + r.3 <= window.1 + window.3
}

/// Insetting leaves a region inside of the given one, by at most [`RECURSE_INSET`] on every side,
/// and something of a region that is not empty.
pub proof fn inset_stays_inside(r: Region)
    requires
        r.2 >= 1,
        r.3 >= 1,
        r.0 + r.2 <= i32::MAX,
        r.1 + r.3 <= i32::MAX,
    ensures
        within(inset_spec(r), r),
        inset_spec(r).2 >= 1,
        inset_spec(r).3 >= 1,
        r.2 - inset_spec(r).2 <= 2 * RECURSE_INSET,
        r.3 - inset_spec(r).3 <= 2 * RECURSE_INSET,
{
}

/// Whether `r` lies within one of the first `n` strips, and that strip within the window.
pub open spec fn in_strip(r: Region, window: Region, at: Seq<i32>, columns: bool, n: nat) -> bool {
    exists|k: int|
        #![trigger at[k]]
        0 <= k < n && within(r, strip(window, at[k], at[k + 1], columns)) && within(
            strip(window, at[k], at[k + 1], columns),
            window,
        )
}

proof fn lemma_strips_within(
    p: Picture,
    window: Region,
    at: Seq<i32>,
    columns: bool,
    n: nat,
    depth: nat,
)
    requires
        panel_sized(window),
        window_fits(window),
        columns ==> delimits(at, window.0 as int, window.0 + window.2),
        !columns ==> delimits(at, window.1 as int, window.1 + window.3),
        n < at.len(),
    ensures
        forall|i: int|
            0 <= i < strips(p, window, at, columns, n, depth).len() ==> {
                let r = #[trigger] strips(p, window, at, columns, n, depth)[i];
                panel_sized(r) && in_strip(r, window, at, columns, n)
            },
    decreases depth, n,
{
    if n > 0 {
        let before = strips(p, window, at, columns, (n - 1) as nat, depth);
        let here = strips(p, window, at, columns, n, depth);
        let s = strip(window, at[n - 1], at[n as int], columns);
        lemma_strips_within(p, window, at, columns, (n - 1) as nat, depth);
        assert(at[0] <= at[n - 1] <= at[n as int] <= at[at.len() - 1]);
        if panel_sized(s) {
            inset_stays_inside(s);
            panels_lie_in_the_window(p, inset_spec(s), depth);
            let inside = panels(p, inset_spec(s), depth);
            assert forall|i: int| 0 <= i < here.len() implies {
                let r = #[trigger] here[i];
                panel_sized(r) && in_strip(r, window, at, columns, n)
            } by {
                if i < before.len() {
                    assert(here[i] == before[i]);
                    assert(in_strip(before[i], window, at, columns, (n - 1) as nat));
                } else if i == before.len() {
                    assert(here[i] == s);
                    assert(within(s, strip(window, at[n - 1], at[n - 1 + 1], columns)));
                } else {
                    assert(here[i] == inside[i - before.len() - 1]);
                    assert(within(here[i], strip(window, at[n - 1], at[n - 1 + 1], columns)));
                }
            }
        }
    }
}

/// Every panel lies within its window and has the size of a panel.
pub proof fn panels_lie_in_the_window(p: Picture, window: Region, depth: nat)
    requires
        window_fits(window),
    ensures
        forall|i: int|
            0 <= i < panels(p, window, depth).len() ==> within(
                #[trigger] panels(p, window, depth)[i],
                window,
            ) && panel_sized(panels(p, window, depth)[i]),
    decreases depth, 0nat,
{
    if depth > 0 && searched(p, window) {
        lemma_searched(p, window);
        let xs = column_cuts(p, window);
        let ys = row_cuts(p, window);
        let columns = xs.len() > 0;
        let (at, n) = if columns {
            (bounded(xs, window.0, (window.0 + window.2) as i32), xs.len() + 1)
        } else {
            (bounded(ys, window.1, (window.1 + window.3) as i32), ys.len() + 1)
        };
        if columns || ys.len() > 0 {
            lemma_strips_within(p, window, at, columns, n, (depth - 1) as nat);
            let found = strips(p, window, at, columns, n, (depth - 1) as nat);
            assert(panels(p, window, depth) == found);
            assert forall|i: int| 0 <= i < found.len() implies within(#[trigger] found[i], window)
                && panel_sized(found[i]) by {
                assert(in_strip(found[i], window, at, columns, n));
            }
        }
    }
}

/// Where a window has vertical dividers, no panel crosses one: each lies between two neighboring
/// cuts, so that no row spans several columns.
pub proof fn no_panel_crosses_a_column(p: Picture, window: Region, depth: nat)
    requires
        depth > 0,
        searched(p, window),
        window_fits(window),
        column_cuts(p, window).len() > 0,
    ensures
        forall|i: int|
            0 <= i < panels(p, window, depth).len() ==> {
                let r = #[trigger] panels(p, window, depth)[i];
                let at = bounded(
                    column_cuts(p, window),
                    window.0,
                    (window.0 + window.2) as i32,
                );
                exists|k: int|
                    0 <= k < at.len() - 1 && #[trigger] at[k] <= r.0 && r.0 + r.2 <= at[k + 1]
            },
{
    lemma_searched(p, window);
    let xs = column_cuts(p, window);
    let at = bounded(xs, window.0, (window.0 + window.2) as i32);
    lemma_strips_within(p, window, at, true, xs.len() + 1, (depth - 1) as nat);
    assert forall|i: int| 0 <= i < panels(p, window, depth).len() implies {
        let r = #[trigger] panels(p, window, depth)[i];
        exists|k: int|
            0 <= k < at.len() - 1 && #[trigger] at[k] <= r.0 && r.0 + r.2 <= at[k + 1]
    } by {
        let r = panels(p, window, depth)[i];
        assert(r == strips(p, window, at, true, xs.len() + 1, (depth - 1) as nat)[i]);
        assert(in_strip(r, window, at, true, xs.len() + 1));
        let k = choose|k: int|
            #![trigger at[k]]
            0 <= k < xs.len() + 1 && within(r, strip(window, at[k], at[k + 1], true)) && within(
                strip(window, at[k], at[k + 1], true),
                window,
            );
        assert(at[0] <= at[k] <= at[k + 1] <= at[at.len() - 1]);
    }
}

/// A window without a divider yields nothing, and neither does one too small for a panel.
pub proof fn no_divider_no_panel(p: Picture, window: Region, depth: nat)
    requires
        !panel_sized(window) || column_cuts(p, window).len() == 0 && row_cuts(p, window).len() == 0,
    ensures
        panels(p, window, depth).len() == 0,
{
}

} // verus!
