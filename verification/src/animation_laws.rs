//! What holds of the animations: what their frames show, and that they show all of it.

use vstd::prelude::*;

use crate::canvas::{self, Pixels, Rgba};
use crate::fullscan_viz::{self, BarState, CheckKind, Scan};
use crate::growth_viz::{self, Growth};
use crate::vision::dividers::Region;
use crate::vision::edges::{Orientation, Picture};
use crate::vision::growth::{self, Segment};
use crate::vision::growth_laws;
use crate::vision::lines;
use crate::vision::scan_laws;

verus! {

proof fn lemma_row_frames(scan: Scan, k: int)
    requires
        0 <= k <= fullscan_viz::sweep_frames(scan.window.3 as int),
    ensures
        ({
            let h = scan.window.3 as int;
            let n = fullscan_viz::sweep_frames(h);
            scan.row_frames(k) == Seq::new(
                (n - k) as nat,
                |i: int|
                    scan.row_frame(
                        fullscan_viz::sweep_start(k + i, h),
                        fullscan_viz::sweep_start(k + i + 1, h),
                    ),
            )
        }),
    decreases fullscan_viz::sweep_frames(scan.window.3 as int) - k,
{
    let h = scan.window.3 as int;
    let n = fullscan_viz::sweep_frames(h);
    let all = Seq::new(
        (n - k) as nat,
        |i: int|
            scan.row_frame(
                fullscan_viz::sweep_start(k + i, h),
                fullscan_viz::sweep_start(k + i + 1, h),
            ),
    );
    if k < n {
        lemma_row_frames(scan, k + 1);
        assert(scan.row_frames(k) =~= all) by {
            let rest = scan.row_frames(k + 1);
            assert forall|i: int| 0 < i < n - k implies rest[i - 1] == #[trigger] all[i] by {
                assert(k + 1 + (i - 1) == k + i);
            }
        }
    } else {
        assert(scan.row_frames(k) =~= all);
    }
}

proof fn lemma_column_frames(scan: Scan, k: int)
    requires
        0 <= k <= fullscan_viz::sweep_frames(scan.window.2 as int),
    ensures
        ({
            let w = scan.window.2 as int;
            let n = fullscan_viz::sweep_frames(w);
            scan.column_frames(k) == Seq::new(
                (n - k) as nat,
                |i: int| scan.column_frame(fullscan_viz::sweep_start(k + i + 1, w)),
            )
        }),
    decreases fullscan_viz::sweep_frames(scan.window.2 as int) - k,
{
    let w = scan.window.2 as int;
    let n = fullscan_viz::sweep_frames(w);
    let all = Seq::new(
        (n - k) as nat,
        |i: int| scan.column_frame(fullscan_viz::sweep_start(k + i + 1, w)),
    );
    if k < n {
        lemma_column_frames(scan, k + 1);
        assert(scan.column_frames(k) =~= all) by {
            let rest = scan.column_frames(k + 1);
            assert forall|i: int| 0 < i < n - k implies rest[i - 1] == #[trigger] all[i] by {
                assert(k + 1 + (i - 1) == k + i);
            }
        }
    } else {
        assert(scan.column_frames(k) =~= all);
    }
}

/// A scan is shown as a sweep over all rows in up to sixteen frames and one over all columns in up to
/// sixteen, then the counts with the length that is enough for five frames, and what was found for ten.
pub proof fn a_scan_is_shown_from_first_to_last(scan: Scan, check: CheckKind, k: int)
    requires
        scan.window.2 > 0,
        scan.window.3 > 0,
    ensures
        ({
            let (w, h) = (scan.window.2 as int, scan.window.3 as int);
            let m = if h < 16 {
                h
            } else {
                16
            };
            let n = if w < 16 {
                w
            } else {
                16
            };
            let frames = scan.frames(check);
            &&& frames.len() == m + n + 15
            &&& 0 <= k < m ==> frames[k] == scan.row_frame(k * h / m, (k + 1) * h / m)
            &&& 0 <= k < n ==> frames[m + k] == scan.column_frame((k + 1) * w / n)
            &&& 0 <= k < 5 ==> frames[m + n + k].pixels == scan.threshold_picture()
            &&& 5 <= k < 15 ==> frames[m + n + k].pixels == scan.final_picture(check)
        }),
{
    lemma_row_frames(scan, 0);
    lemma_column_frames(scan, 0);
}

proof fn lemma_seed_frames(g: Growth, k: int)
    requires
        0 <= k <= growth_viz::reveal_frames(g.seeds().len() as int),
    ensures
        ({
            let seeds = g.seeds().len() as int;
            let n = growth_viz::reveal_frames(seeds);
            g.seed_frames(k) == Seq::new(
                (n - k) as nat,
                |i: int|
                    g.seed_frame(
                        growth_viz::reveal_start(k + i, seeds),
                        growth_viz::reveal_start(k + i + 1, seeds),
                    ),
            )
        }),
    decreases growth_viz::reveal_frames(g.seeds().len() as int) - k,
{
    let seeds = g.seeds().len() as int;
    let n = growth_viz::reveal_frames(seeds);
    let all = Seq::new(
        (n - k) as nat,
        |i: int|
            g.seed_frame(
                growth_viz::reveal_start(k + i, seeds),
                growth_viz::reveal_start(k + i + 1, seeds),
            ),
    );
    if k < n {
        lemma_seed_frames(g, k + 1);
        assert(g.seed_frames(k) =~= all) by {
            let rest = g.seed_frames(k + 1);
            assert forall|i: int| 0 < i < n - k implies rest[i - 1] == #[trigger] all[i] by {
                assert(k + 1 + (i - 1) == k + i);
            }
        }
    } else {
        assert(g.seed_frames(k) =~= all);
    }
}

/// A growth is shown as all seeds in up to fourteen frames, then all lines, the merged ones, and those
/// with a partner against the others for five frames each, and the boxes for ten.
pub proof fn a_growth_is_shown_from_first_to_last(g: Growth, k: int)
    ensures
        ({
            let seeds = g.seeds().len() as int;
            let n = if seeds < 14 {
                seeds
            } else {
                14
            };
            let frames = g.frames();
            &&& frames.len() == n + 25
            &&& 0 <= k < n ==> frames[k] == g.seed_frame(k * seeds / n, (k + 1) * seeds / n)
            &&& 0 <= k < 5 ==> frames[n + k].pixels == g.raw_picture()
            &&& 5 <= k < 10 ==> frames[n + k].pixels == g.merged_picture()
            &&& 10 <= k < 15 ==> frames[n + k].pixels == g.pairs_picture()
            &&& 15 <= k < 25 ==> frames[n + k].pixels == g.box_picture()
        }),
{
    lemma_seed_frames(g, 0);
}

/// The bar of a count is to the whole strip of 64 pixels as the count is to the greatest possible one,
/// to the nearest pixel.
pub proof fn bars_are_proportional(count: u32, max: u32)
    requires
        0 < max,
        count <= max,
    ensures
        -(max as int) < 2 * (max * fullscan_viz::bar_length(count, max)) - 128 * count <= max,
        0 <= fullscan_viz::bar_length(count, max) <= 64,
        count == max ==> fullscan_viz::bar_length(count, max) == 64,
{
    let n = fullscan_viz::bar_length(count, max);
    let (m, t) = (2 * max, 128 * count + max);
    assert(n == t / m);
    assert(m * n <= t < m * n + m) by (nonlinear_arith)
        requires
            n == t / m,
            m > 0,
    ;
    assert(m * n == 2 * (max * n)) by (nonlinear_arith)
        requires
            m == 2 * max,
    ;
    assert(0 <= n <= 64 && (count == max ==> n == 64)) by (nonlinear_arith)
        requires
            m == 2 * max,
            t == 128 * count + max,
            0 <= count <= max,
            0 < max,
            m * n <= t < m * n + m,
    ;
}

/// Whether a bar of `length` pixels that ends at `end` covers a position; one without a length is
/// still a pixel long.
pub open spec fn on_bar(length: int, end: int, at: int) -> bool {
    end - length <= at && (at < end || length == 0 && at == end)
}

/// Each column with a count has a bar at the lower end of the strip below the picture, in the color of
/// what became of it, and nothing else of the picture changes.
pub proof fn columns_have_their_bars(
    p: Pixels,
    counts: Seq<u32>,
    states: Seq<BarState>,
    height: u32,
    n: nat,
    x: int,
    y: int,
)
    requires
        n <= counts.len(),
        0 < height,
        forall|i: int| 0 <= i < counts.len() ==> #[trigger] counts[i] <= height,
        0 <= y < p.len(),
        0 <= x < p[y].len(),
    ensures
        ({
            let q = fullscan_viz::column_bars(p, counts, states, height, n);
            &&& q.len() == p.len()
            &&& q[y].len() == p[y].len()
            &&& q[y][x] == if x < n && counts[x] > 0 && on_bar(
                fullscan_viz::bar_length(counts[x], height),
                height + 64,
                y,
            ) {
                fullscan_viz::color_of(states[x])
            } else {
                p[y][x]
            }
        }),
    decreases n,
{
    if n > 0 {
        columns_have_their_bars(p, counts, states, height, (n - 1) as nat, x, y);
        assert(counts[n - 1] <= height);
        bars_are_proportional(counts[n - 1], height);
    }
}

/// Each row with a count has a bar at the right end of the strip beside the picture, in the color of
/// what became of it, and nothing else of the picture changes.
pub proof fn rows_have_their_bars(
    p: Pixels,
    counts: Seq<u32>,
    states: Seq<BarState>,
    width: u32,
    n: nat,
    x: int,
    y: int,
)
    requires
        n <= counts.len(),
        0 < width,
        forall|i: int| 0 <= i < counts.len() ==> #[trigger] counts[i] <= width,
        0 <= y < p.len(),
        0 <= x < p[y].len(),
    ensures
        ({
            let q = fullscan_viz::row_bars(p, counts, states, width, n);
            &&& q.len() == p.len()
            &&& q[y].len() == p[y].len()
            &&& q[y][x] == if y < n && counts[y] > 0 && on_bar(
                fullscan_viz::bar_length(counts[y], width),
                width + 64,
                x,
            ) {
                fullscan_viz::color_of(states[y])
            } else {
                p[y][x]
            }
        }),
    decreases n,
{
    if n > 0 {
        rows_have_their_bars(p, counts, states, width, (n - 1) as nat, x, y);
        assert(counts[n - 1] <= width);
        bars_are_proportional(counts[n - 1], width);
    }
}

/// What becomes of a line is told by its color: yellow if it is a line under the check, orange if it
/// would be one without the check, and blue otherwise.
pub proof fn colors_tell_what_became_of_a_line(
    scan: Scan,
    orientation: Orientation,
    check: CheckKind,
    i: int,
)
    requires
        scan.picture.width <= i32::MAX,
        scan.picture.height <= i32::MAX,
        growth::framed(scan.window),
        0 <= i < scan_laws::lines_of(scan.window, orientation).1,
    ensures
        ({
            let line = scan_laws::lines_of(scan.window, orientation).0 + i;
            let plain = crate::vision::fullscan::FullScanOptions {
                peak_check: false,
                uniformity_check: false,
            };
            let checked = crate::vision::fullscan::FullScanOptions {
                peak_check: check is Peak,
                uniformity_check: check is Uniformity,
            };
            fullscan_viz::color_of(scan.fates(orientation, check)[i]) == if scan_laws::is_line(
                scan.picture,
                scan.window,
                orientation,
                checked,
                line,
            ) {
                (255u8, 220u8, 0u8, 255u8)
            } else if scan_laws::is_line(
                scan.picture,
                scan.window,
                orientation,
                plain,
                line,
            ) {
                (255u8, 130u8, 30u8, 255u8)
            } else {
                (80u8, 170u8, 255u8, 255u8)
            }
        }),
{
    let plain = crate::vision::fullscan::FullScanOptions {
        peak_check: false,
        uniformity_check: false,
    };
    scan_laws::lemma_survives(scan.picture, scan.window, orientation, plain, i);
    scan_laws::lemma_survives(scan.picture, scan.window, orientation, check.options(), i);
}

/// The counts after so many rows or columns are how often the gray value has changed so far.
pub proof fn counts_grow_with_the_sweep(scan: Scan, orientation: Orientation, n: nat, i: int)
    requires
        scan.picture.width <= i32::MAX,
        scan.picture.height <= i32::MAX,
        n <= i32::MAX,
        0 <= i < scan_laws::lines_of(scan.window, orientation).1,
    ensures
        ({
            let (first, number, lo, _) = scan_laws::lines_of(scan.window, orientation);
            &&& scan.tallied(orientation, n).len() == number
            &&& scan.tallied(orientation, n)[i] == scan_laws::changes_on(
                scan.picture,
                orientation,
                first + i,
                lo,
                lo + n,
            ).len()
        }),
{
    let (first, _, lo, _) = scan_laws::lines_of(scan.window, orientation);
    scan_laws::lemma_changes(scan.picture, orientation, first + i, lo, n);
}

/// The picture of a window shows its gray values, and in the rows that are swept over, where these
/// change from left to right.
pub proof fn changes_are_marked(scan: Scan, from: int, to: int, x: int, y: int)
    requires
        scan.picture.width <= i32::MAX,
        scan.picture.height <= i32::MAX,
        0 <= x < scan.window.2,
        0 <= y < scan.window.3,
    ensures
        ({
            let gray = scan.picture.gray[(scan.window.1 + y) * scan.picture.width + (scan.window.0
                + x)];
            scan.marked(from, to)[y][x] == if from <= y < to && scan_laws::changes_at(
                scan.picture,
                Orientation::Vertical,
                scan.window.0 + x,
                scan.window.1 + y,
            ) {
                (255u8, 70u8, 70u8, 255u8)
            } else {
                (gray, gray, gray, 255u8)
            }
        }),
{
    scan_laws::edges_are_changes(
        scan.picture,
        Orientation::Vertical,
        scan.window.0 + x,
        scan.window.1 + y,
        0,
        0,
    );
}

proof fn lemma_glow(p: Pixels, at: int, end: int, upright: bool, x: int, y: int)
    requires
        0 <= y < p.len(),
        0 <= x < p[y].len(),
        0 <= end,
    ensures
        ({
            let q = if upright {
                fullscan_viz::with_glow(p, (at, 0), (at, end))
            } else {
                fullscan_viz::with_glow(p, (0, at), (end, at))
            };
            let (across, along) = if upright {
                (x, y)
            } else {
                (y, x)
            };
            &&& q.len() == p.len()
            &&& q[y].len() == p[y].len()
            &&& across == at && along <= end && (upright || end > 0) ==> q[y][x] == (
                255u8,
                255u8,
                90u8,
                255u8,
            )
            &&& (across < at - 2 || across > at + 2) && (upright || end > 0) ==> q[y][x] == p[y][x]
        }),
{
}

/// Every upright line that was found glows from the top of the window to its bottom.
pub proof fn upright_lines_glow(
    p: Pixels,
    xs: Seq<i32>,
    wx: int,
    wh: int,
    n: nat,
    i: int,
    y: int,
)
    requires
        0 <= i < n <= xs.len(),
        lines::spaced(xs, 4),
        0 <= wh,
        0 <= y < p.len(),
        y <= wh,
        0 <= xs[i] - wx < p[y].len(),
    ensures
        fullscan_viz::upright_glows(p, xs, wx, wh, n).len() == p.len(),
        fullscan_viz::upright_glows(p, xs, wx, wh, n)[y].len() == p[y].len(),
        fullscan_viz::upright_glows(p, xs, wx, wh, n)[y][xs[i] - wx] == (255u8, 255u8, 90u8, 255u8),
    decreases n,
{
    lemma_upright_sized(p, xs, wx, wh, (n - 1) as nat, y);
    let before = fullscan_viz::upright_glows(p, xs, wx, wh, (n - 1) as nat);
    lemma_glow(before, xs[n - 1] - wx, wh, true, xs[i] - wx, y);
    if i < n - 1 {
        upright_lines_glow(p, xs, wx, wh, (n - 1) as nat, i, y);
        assert(xs[n - 1] - xs[i] > 4);
    }
}

proof fn lemma_upright_sized(p: Pixels, xs: Seq<i32>, wx: int, wh: int, n: nat, y: int)
    requires
        0 <= y < p.len(),
    ensures
        fullscan_viz::upright_glows(p, xs, wx, wh, n).len() == p.len(),
        fullscan_viz::upright_glows(p, xs, wx, wh, n)[y].len() == p[y].len(),
    decreases n,
{
    if n > 0 {
        lemma_upright_sized(p, xs, wx, wh, (n - 1) as nat, y);
    }
}

/// Every level line that was found glows from the left of the window to its right.
pub proof fn level_lines_glow(
    p: Pixels,
    ys: Seq<i32>,
    wy: int,
    ww: int,
    n: nat,
    i: int,
    x: int,
)
    requires
        0 <= i < n <= ys.len(),
        lines::spaced(ys, 4),
        0 < ww,
        0 <= ys[i] - wy < p.len(),
        0 <= x < p[ys[i] - wy].len(),
        x <= ww,
    ensures
        fullscan_viz::level_glows(p, ys, wy, ww, n).len() == p.len(),
        fullscan_viz::level_glows(p, ys, wy, ww, n)[ys[i] - wy].len() == p[ys[i] - wy].len(),
        fullscan_viz::level_glows(p, ys, wy, ww, n)[ys[i] - wy][x] == (255u8, 255u8, 90u8, 255u8),
    decreases n,
{
    lemma_level_sized(p, ys, wy, ww, (n - 1) as nat, ys[i] - wy);
    let before = fullscan_viz::level_glows(p, ys, wy, ww, (n - 1) as nat);
    lemma_glow(before, ys[n - 1] - wy, ww, false, x, ys[i] - wy);
    if i < n - 1 {
        level_lines_glow(p, ys, wy, ww, (n - 1) as nat, i, x);
        assert(ys[n - 1] - ys[i] > 4);
    }
}

proof fn lemma_level_sized(p: Pixels, ys: Seq<i32>, wy: int, ww: int, n: nat, y: int)
    requires
        0 <= y < p.len(),
    ensures
        fullscan_viz::level_glows(p, ys, wy, ww, n).len() == p.len(),
        fullscan_viz::level_glows(p, ys, wy, ww, n)[y].len() == p[y].len(),
    decreases n,
{
    if n > 0 {
        lemma_level_sized(p, ys, wy, ww, (n - 1) as nat, y);
    }
}

/// Whether a pixel of a window lies on the border of a box.
pub open spec fn on_border(b: Region, window: Region, x: int, y: int) -> bool {
    let (left, top) = (b.0 - window.0, b.1 - window.1);
    let (right, bottom) = (left + b.2 - 1, top + b.3 - 1);
    &&& left <= x <= right
    &&& top <= y <= bottom
    &&& x == left || x == right || y == top || y == bottom
}

/// Every box is outlined: on the border of each of them, the picture is yellow. So it is nowhere where
/// no box is, unless it was before.
pub proof fn every_box_is_outlined(
    p: Pixels,
    found: Seq<Region>,
    window: Region,
    n: nat,
    x: int,
    y: int,
)
    requires
        n <= found.len(),
        0 <= y < p.len(),
        0 <= x < p[y].len(),
    ensures
        ({
            let q = growth_viz::with_boxes(p, found, window, n);
            &&& q.len() == p.len()
            &&& q[y].len() == p[y].len()
            &&& (exists|i: int| 0 <= i < n && on_border(#[trigger] found[i], window, x, y))
                ==> q[y][x] == (255u8, 255u8, 0u8, 255u8)
            &&& q[y][x] == p[y][x] || q[y][x] == (255u8, 255u8, 0u8, 255u8)
            &&& (forall|i: int| 0 <= i < n ==> {
                let b = #[trigger] found[i];
                !(b.0 - window.0 <= x < b.0 - window.0 + b.2 && b.1 - window.1 <= y < b.1 - window.1
                    + b.3)
            }) ==> q[y][x] == p[y][x]
        }),
    decreases n,
{
    if n > 0 {
        every_box_is_outlined(p, found, window, (n - 1) as nat, x, y);
        let q = growth_viz::with_boxes(p, found, window, n);
        if exists|i: int| 0 <= i < n && on_border(#[trigger] found[i], window, x, y) {
            let i = choose|i: int| 0 <= i < n && on_border(#[trigger] found[i], window, x, y);
            if i < n - 1 {
                assert(on_border(found[i], window, x, y));
            }
        }
    }
}

/// Whether a pixel of a window lies on a segment.
pub open spec fn on_segment(s: Segment, window: Region, x: int, y: int) -> bool {
    match s.orientation {
        Orientation::Vertical => x == s.fixed - window.0 && s.start <= y + window.1 <= s.end,
        Orientation::Horizontal => y == s.fixed - window.1 && s.start <= x + window.0 <= s.end,
    }
}

proof fn lemma_lines(
    p: Pixels,
    s: Segment,
    c: Rgba,
    window: Region,
    reach: int,
    n: nat,
    x: int,
    y: int,
)
    requires
        0 <= y < p.len(),
        0 <= x < p[y].len(),
    ensures
        ({
            let q = growth_viz::with_lines(p, s, c, window, reach, n);
            &&& q.len() == p.len()
            &&& q[y].len() == p[y].len()
            &&& q[y][x] == p[y][x] || q[y][x] == c
            &&& 0 <= reach < n && on_segment(s, window, x, y) ==> q[y][x] == c
        }),
    decreases n,
{
    if n > 0 {
        lemma_lines(p, s, c, window, reach, (n - 1) as nat, x, y);
    }
}

/// All segments are drawn: where one of them is, the picture has its color, if they all have the same.
pub proof fn every_segment_is_drawn(
    p: Pixels,
    s: Seq<Segment>,
    c: Rgba,
    window: Region,
    thickness: int,
    n: nat,
    x: int,
    y: int,
)
    requires
        n <= s.len(),
        0 < thickness,
        0 <= y < p.len(),
        0 <= x < p[y].len(),
    ensures
        ({
            let q = growth_viz::with_segments(p, s, |t: Segment| c, window, thickness, n);
            &&& q.len() == p.len()
            &&& q[y].len() == p[y].len()
            &&& q[y][x] == p[y][x] || q[y][x] == c
            &&& (exists|i: int| 0 <= i < n && on_segment(#[trigger] s[i], window, x, y)) ==> q[y][x]
                == c
        }),
    decreases n,
{
    if n > 0 {
        let colors = |t: Segment| c;
        let before = growth_viz::with_segments(p, s, colors, window, thickness, (n - 1) as nat);
        every_segment_is_drawn(p, s, c, window, thickness, (n - 1) as nat, x, y);
        lemma_lines(
            before,
            s[n - 1],
            c,
            window,
            thickness / 2,
            (2 * (thickness / 2) + 1) as nat,
            x,
            y,
        );
        if exists|i: int| 0 <= i < n && on_segment(#[trigger] s[i], window, x, y) {
            let i = choose|i: int| 0 <= i < n && on_segment(#[trigger] s[i], window, x, y);
            if i < n - 1 {
                assert(on_segment(s[i], window, x, y));
            }
        }
    }
}

/// Every seed is a dot where it lies.
pub proof fn every_seed_is_a_dot(
    p: Pixels,
    seeds: Seq<(i32, i32)>,
    window: Region,
    n: nat,
    i: int,
)
    requires
        0 <= i < n <= seeds.len(),
        growth::in_window(seeds[i], window),
        seeds[i].1 - window.1 < p.len(),
        seeds[i].0 - window.0 < p[seeds[i].1 - window.1].len(),
    ensures
        ({
            let q = growth_viz::with_seeds(p, seeds, window, n);
            let (x, y) = (seeds[i].0 - window.0, seeds[i].1 - window.1);
            &&& q.len() == p.len()
            &&& q[y].len() == p[y].len()
            &&& q[y][x] == (60u8, 60u8, 160u8, 255u8)
        }),
    decreases n,
{
    let (x, y) = (seeds[i].0 - window.0, seeds[i].1 - window.1);
    lemma_seeds_sized(p, seeds, window, (n - 1) as nat, y);
    if i < n - 1 {
        every_seed_is_a_dot(p, seeds, window, (n - 1) as nat, i);
    }
}

proof fn lemma_seeds_sized(p: Pixels, seeds: Seq<(i32, i32)>, window: Region, n: nat, y: int)
    requires
        0 <= y < p.len(),
    ensures
        growth_viz::with_seeds(p, seeds, window, n).len() == p.len(),
        growth_viz::with_seeds(p, seeds, window, n)[y].len() == p[y].len(),
    decreases n,
{
    if n > 0 {
        lemma_seeds_sized(p, seeds, window, (n - 1) as nat, y);
    }
}

/// A merged line is bright if another one of its orientation has about its length, and if it is
/// bright, one has.
pub proof fn lines_with_a_partner_are_bright(g: Growth, i: int, j: int)
    requires
        0 <= i < g.merged().len(),
        0 <= j < g.merged().len(),
        i != j,
    ensures
        ({
            let m = g.merged();
            let bright = (255u8, 60u8, 220u8, 255u8);
            &&& m[i].orientation == m[j].orientation && growth_laws::alike(m[i], m[j])
                ==> g.pair_color(m[i]) == bright
            &&& g.pair_color(m[i]) == bright ==> exists|k: int|
                0 <= k < m.len() && (#[trigger] m[k]).orientation == m[i].orientation
                    && growth_laws::alike(m[i], m[k])
            &&& g.pair_color(m[i]) != bright ==> g.pair_color(m[i]) == (90u8, 90u8, 90u8, 255u8)
        }),
{
    let m = g.merged();
    let o = m[i].orientation;
    if m[i].orientation == m[j].orientation && growth_laws::alike(m[i], m[j]) {
        let (a, b) = if i < j {
            (i, j)
        } else {
            (j, i)
        };
        growth_laws::no_pair_is_left_out(m, o, a, b);
        let pairs = g.pairs(o);
        let pair = if m[a].fixed <= m[b].fixed {
            (m[a], m[b])
        } else {
            (m[b], m[a])
        };
        let k = choose|k: int| 0 <= k < pairs.len() && pairs[k] == pair;
        assert(pairs[k].0 == m[i] || pairs[k].1 == m[i]);
        assert(growth_viz::is_paired(m[i], pairs));
        if o is Vertical {
            assert(o == Orientation::Vertical);
        } else {
            assert(o == Orientation::Horizontal);
        }
    }
    if g.pair_color(m[i]) == (255u8, 60u8, 220u8, 255u8) {
        let side = if growth_viz::is_paired(m[i], g.pairs(Orientation::Vertical)) {
            Orientation::Vertical
        } else {
            Orientation::Horizontal
        };
        let pairs = g.pairs(side);
        assert(growth_viz::is_paired(m[i], pairs));
        let k = choose|k: int|
            0 <= k < pairs.len() && ((#[trigger] pairs[k]).0 == m[i] || pairs[k].1 == m[i]);
        growth::pairs_are_opposite_sides(m, side);
        let other = if pairs[k].0 == m[i] {
            pairs[k].1
        } else {
            pairs[k].0
        };
        assert(m.contains(other));
        let l = choose|l: int| 0 <= l < m.len() && m[l] == other;
        assert(m[l].orientation == m[i].orientation && growth_laws::alike(m[i], m[l]));
    }
}

/// The bars leave the picture itself alone.
pub proof fn histograms_leave_the_picture_alone(
    p: Pixels,
    b: fullscan_viz::Bars,
    x: int,
    y: int,
)
    requires
        0 < b.columns.len() <= 0x100_0000,
        0 < b.rows.len() <= 0x100_0000,
        forall|i: int| 0 <= i < b.columns.len() ==> #[trigger] b.columns[i] <= b.rows.len(),
        forall|i: int| 0 <= i < b.rows.len() ==> #[trigger] b.rows[i] <= b.columns.len(),
        0 <= x < b.columns.len(),
        0 <= y < b.rows.len(),
        y < p.len(),
        x < p[y].len(),
    ensures
        fullscan_viz::with_histograms(p, b)[y][x] == p[y][x],
{
    let (width, height) = (b.columns.len() as u32, b.rows.len() as u32);
    let cleared = canvas::filled(
        canvas::filled(p, 0, height as int, width as int, 64, fullscan_viz::MARGIN_BG),
        width as int,
        0,
        64,
        height as int,
        fullscan_viz::MARGIN_BG,
    );
    assert(cleared[y][x] == p[y][x]);
    columns_have_their_bars(
        cleared,
        b.columns,
        b.column_states,
        height,
        b.columns.len(),
        x,
        y,
    );
    bars_are_proportional(b.columns[x], height);
    let mid = fullscan_viz::column_bars(
        cleared,
        b.columns,
        b.column_states,
        height,
        b.columns.len(),
    );
    rows_have_their_bars(mid, b.rows, b.row_states, width, b.rows.len(), x, y);
    bars_are_proportional(b.rows[y], width);
}

/// A window is shown in its gray values, and the margin to the right and below in the color it is given.
pub proof fn windows_are_shown_in_gray(
    gray: Seq<u8>,
    img_w: u32,
    window: Region,
    margin: nat,
    bg: Rgba,
    x: int,
    y: int,
)
    requires
        0 <= window.2,
        0 <= window.3,
        0 <= x < window.2 + margin,
        0 <= y < window.3 + margin,
    ensures
        ({
            let p = canvas::cropped(gray, img_w, window, margin, bg);
            let v = gray[(window.1 + y) * img_w + (window.0 + x)];
            &&& p.len() == window.3 + margin
            &&& p[y].len() == window.2 + margin
            &&& p[y][x] == if x < window.2 && y < window.3 {
                (v, v, v, 255u8)
            } else {
                bg
            }
        }),
{
}

/// A ray that hits something is drawn from its seed to what it hits, which is a dot; one that hits
/// nothing is not drawn.
pub proof fn rays_are_drawn_to_what_they_hit(
    p: Pixels,
    picture: Picture,
    seed: (i32, i32),
    dir: growth::RayDirection,
    window: Region,
    x: int,
    y: int,
)
    requires
        0 <= y < p.len(),
        0 <= x < p[y].len(),
    ensures
        ({
            let q = growth_viz::with_ray(p, picture, seed, dir, window);
            let (orange, red) = ((255u8, 140u8, 0u8, 255u8), (255u8, 60u8, 60u8, 255u8));
            match growth::ray_hit(picture, seed, dir, window) {
                Some((hx, hy, _)) => {
                    let (ax, ay) = (seed.0 - window.0, seed.1 - window.1);
                    let (bx, by) = (hx - window.0, hy - window.1);
                    &&& canvas::between(ax, x, bx) && canvas::between(ay, y, by) ==> q[y][x]
                        == orange || q[y][x] == red
                    &&& x == bx && y == by && bx < window.2 && by < window.3 ==> q[y][x] == red
                    &&& q[y][x] == orange ==> p[y][x] == orange || canvas::between(ax, x, bx)
                        && canvas::between(ay, y, by)
                },
                None => q == p,
            }
        }),
{
}

/// The picture of what is enough has a line across each strip where the bar of half the count would
/// end.
pub proof fn half_is_marked(scan: Scan, x: int, y: int)
    requires
        scan.window.2 > 0,
        scan.window.3 > 0,
        0 <= y < scan.threshold_picture().len(),
        0 <= x < scan.threshold_picture()[y].len(),
        y == scan.window.3 + 32 && x <= scan.window.2 || x == scan.window.2 + 32 && y
            <= scan.window.3,
    ensures
        scan.threshold_picture()[y][x] == (255u8, 70u8, 70u8, 255u8),
{
}

/// The pictures of a growth show every line that was found, every merged line and every box, each in
/// its color.
pub proof fn everything_found_is_shown(g: Growth, x: int, y: int, i: int)
    requires
        0 <= g.window.2,
        0 <= g.window.3,
        0 <= x < g.window.2,
        0 <= y < g.window.3,
    ensures
        ({
            let raw = g.raw(g.seeds().len());
            &&& 0 <= i < raw.len() && on_segment(raw[i], g.window, x, y) ==> g.raw_picture()[y][x]
                == (60u8, 220u8, 90u8, 255u8)
            &&& 0 <= i < g.merged().len() && on_segment(g.merged()[i], g.window, x, y)
                ==> g.merged_picture()[y][x] == (0u8, 220u8, 220u8, 255u8)
            &&& 0 <= i < g.boxes().len() && on_border(g.boxes()[i], g.window, x, y)
                ==> g.box_picture()[y][x] == (255u8, 255u8, 0u8, 255u8)
        }),
{
    let raw = g.raw(g.seeds().len());
    let m = g.merged();
    windows_are_shown_in_gray(
        g.picture.gray,
        g.picture.width,
        g.window,
        0,
        growth_viz::BLANK,
        x,
        y,
    );
    let green = (60u8, 220u8, 90u8, 255u8);
    let cyan = (0u8, 220u8, 220u8, 255u8);
    every_segment_is_drawn(g.base(), raw, green, g.window, 1, raw.len(), x, y);
    every_segment_is_drawn(g.base(), m, cyan, g.window, 2, m.len(), x, y);
    every_box_is_outlined(g.base(), g.boxes(), g.window, g.boxes().len(), x, y);
    assert((|s: Segment| growth_viz::RAW_SEGMENT) =~= (|t: Segment| green));
    assert((|s: Segment| growth_viz::MERGED_SEGMENT) =~= (|t: Segment| cyan));
}

/// During the sweep down, the last row swept over is white, and the others show what was marked in
/// them; during the sweep to the right, the last column is.
pub proof fn sweeps_show_a_cursor(scan: Scan, from: int, to: int, x: int, y: int)
    requires
        scan.picture.width <= i32::MAX,
        scan.picture.height <= i32::MAX,
        growth::framed(scan.window),
        0 < scan.window.2 <= 0x100_0000,
        0 < scan.window.3 <= 0x100_0000,
        0 <= x < scan.window.2,
        0 <= y < scan.window.3,
        0 < to,
    ensures
        to <= scan.window.3 ==> scan.row_frame(from, to).pixels[y][x] == if y == to - 1 {
            (255u8, 255u8, 255u8, 255u8)
        } else {
            scan.marked(from, to)[y][x]
        },
        to <= scan.window.2 ==> scan.column_frame(to).pixels[y][x] == if x == to - 1 {
            (255u8, 255u8, 255u8, 255u8)
        } else {
            scan.marked(0, scan.window.3 as int)[y][x]
        },
{
    let (w, h) = (scan.window.2 as int, scan.window.3 as int);
    if to <= h {
        lemma_counts(scan, to as nat, 0);
        let swept = canvas::lined(
            scan.marked(from, to),
            (0, to - 1),
            (w, to - 1),
            fullscan_viz::CURSOR,
        );
        histograms_leave_the_picture_alone(swept, scan.bars(to as nat, 0), x, y);
    }
    if to <= w {
        lemma_counts(scan, h as nat, to as nat);
        let swept = canvas::lined(
            scan.marked(0, h),
            (to - 1, 0),
            (to - 1, h),
            fullscan_viz::CURSOR,
        );
        histograms_leave_the_picture_alone(swept, scan.bars(h as nat, to as nat), x, y);
    }
}

proof fn lemma_counts(scan: Scan, rows: nat, columns: nat)
    requires
        scan.picture.width <= i32::MAX,
        scan.picture.height <= i32::MAX,
        0 < scan.window.2,
        0 < scan.window.3,
        rows <= scan.window.3,
        columns <= scan.window.2,
    ensures
        ({
            let b = scan.bars(rows, columns);
            &&& b.columns.len() == scan.window.2
            &&& b.rows.len() == scan.window.3
            &&& forall|i: int| 0 <= i < b.columns.len() ==> #[trigger] b.columns[i] <= b.rows.len()
            &&& forall|i: int| 0 <= i < b.rows.len() ==> #[trigger] b.rows[i] <= b.columns.len()
        }),
{
    let b = scan.bars(rows, columns);
    assert forall|i: int| 0 <= i < b.columns.len() implies #[trigger] b.columns[i] <= b.rows.len() by {
        counts_grow_with_the_sweep(scan, Orientation::Vertical, rows, i);
        scan_laws::lemma_changes(
            scan.picture,
            Orientation::Vertical,
            scan.window.0 + i,
            scan.window.1 as int,
            rows,
        );
    }
    assert forall|i: int| 0 <= i < b.rows.len() implies #[trigger] b.rows[i] <= b.columns.len() by {
        counts_grow_with_the_sweep(scan, Orientation::Horizontal, columns, i);
        scan_laws::lemma_changes(
            scan.picture,
            Orientation::Horizontal,
            scan.window.1 + i,
            scan.window.0 as int,
            columns,
        );
    }
}

/// In the last picture of a scan, every level line that was found glows, and so does every upright one
/// where no level one crosses it.
pub proof fn the_lines_that_are_kept_glow(scan: Scan, check: CheckKind, i: int, at: int)
    requires
        growth::framed(scan.window),
        0 < scan.window.2 <= 0x100_0000,
        0 < scan.window.3 <= 0x100_0000,
        0 <= at,
    ensures
        ({
            let xs = scan.found(Orientation::Vertical, check);
            let ys = scan.found(Orientation::Horizontal, check);
            let glow = (255u8, 255u8, 90u8, 255u8);
            &&& 0 <= i < ys.len() && at < scan.window.2 ==> scan.final_picture(check)[ys[i]
                - scan.window.1][at] == glow
            &&& 0 <= i < xs.len() && at < scan.window.3 && (forall|k: int|
                0 <= k < ys.len() ==> !(-2 <= #[trigger] ys[k] - scan.window.1 - at <= 2))
                ==> scan.final_picture(check)[at][xs[i] - scan.window.0] == glow
        }),
{
    let (wx, wy, ww, wh) = scan.window;
    let xs = scan.found(Orientation::Vertical, check);
    let ys = scan.found(Orientation::Horizontal, check);
    crate::vision::fullscan::reported_lines_survive(
        scan.picture,
        scan.window,
        Orientation::Vertical,
        check.options(),
    );
    crate::vision::fullscan::reported_lines_survive(
        scan.picture,
        scan.window,
        Orientation::Horizontal,
        check.options(),
    );
    let judged = fullscan_viz::with_histograms(
        scan.base(),
        fullscan_viz::Bars {
            columns: scan.tallied(Orientation::Vertical, wh as nat),
            rows: scan.tallied(Orientation::Horizontal, ww as nat),
            column_states: scan.fates(Orientation::Vertical, check),
            row_states: scan.fates(Orientation::Horizontal, check),
        },
    );
    let upright = fullscan_viz::upright_glows(judged, xs, wx as int, wh as int, xs.len());
    if 0 <= i < ys.len() && at < ww {
        assert(ys.contains(ys[i]));
        let y = ys[i] - wy;
        lemma_judged_sized(scan, check, y);
        lemma_upright_sized(judged, xs, wx as int, wh as int, xs.len(), y);
        level_lines_glow(upright, ys, wy as int, ww as int, ys.len(), i, at);
    }
    if 0 <= i < xs.len() && at < wh && (forall|k: int|
        0 <= k < ys.len() ==> !(-2 <= #[trigger] ys[k] - wy - at <= 2)) {
        assert(xs.contains(xs[i]));
        lemma_judged_sized(scan, check, at);
        upright_lines_glow(judged, xs, wx as int, wh as int, xs.len(), i, at);
        lemma_level_leaves(upright, ys, wy as int, ww as int, ys.len(), xs[i] - wx, at);
    }
}

proof fn lemma_judged_sized(scan: Scan, check: CheckKind, y: int)
    requires
        0 <= scan.window.2,
        0 <= y < scan.window.3,
    ensures
        ({
            let judged = fullscan_viz::with_histograms(
                scan.base(),
                fullscan_viz::Bars {
                    columns: scan.tallied(Orientation::Vertical, scan.window.3 as nat),
                    rows: scan.tallied(Orientation::Horizontal, scan.window.2 as nat),
                    column_states: scan.fates(Orientation::Vertical, check),
                    row_states: scan.fates(Orientation::Horizontal, check),
                },
            );
            &&& judged.len() == scan.window.3 + 64
            &&& judged[y].len() == scan.window.2 + 64
        }),
{
    let b = fullscan_viz::Bars {
        columns: scan.tallied(Orientation::Vertical, scan.window.3 as nat),
        rows: scan.tallied(Orientation::Horizontal, scan.window.2 as nat),
        column_states: scan.fates(Orientation::Vertical, check),
        row_states: scan.fates(Orientation::Horizontal, check),
    };
    let (width, height) = (b.columns.len() as u32, b.rows.len() as u32);
    let cleared = canvas::filled(
        canvas::filled(scan.base(), 0, height as int, width as int, 64, fullscan_viz::MARGIN_BG),
        width as int,
        0,
        64,
        height as int,
        fullscan_viz::MARGIN_BG,
    );
    lemma_columns_sized(cleared, b.columns, b.column_states, height, b.columns.len(), y);
    let mid = fullscan_viz::column_bars(
        cleared,
        b.columns,
        b.column_states,
        height,
        b.columns.len(),
    );
    lemma_rows_sized(mid, b.rows, b.row_states, width, b.rows.len(), y);
}

proof fn lemma_columns_sized(
    p: Pixels,
    counts: Seq<u32>,
    states: Seq<BarState>,
    height: u32,
    n: nat,
    y: int,
)
    requires
        0 <= y < p.len(),
    ensures
        fullscan_viz::column_bars(p, counts, states, height, n).len() == p.len(),
        fullscan_viz::column_bars(p, counts, states, height, n)[y].len() == p[y].len(),
    decreases n,
{
    if n > 0 {
        lemma_columns_sized(p, counts, states, height, (n - 1) as nat, y);
    }
}

proof fn lemma_rows_sized(
    p: Pixels,
    counts: Seq<u32>,
    states: Seq<BarState>,
    width: u32,
    n: nat,
    y: int,
)
    requires
        0 <= y < p.len(),
    ensures
        fullscan_viz::row_bars(p, counts, states, width, n).len() == p.len(),
        fullscan_viz::row_bars(p, counts, states, width, n)[y].len() == p[y].len(),
    decreases n,
{
    if n > 0 {
        lemma_rows_sized(p, counts, states, width, (n - 1) as nat, y);
    }
}

proof fn lemma_level_leaves(p: Pixels, ys: Seq<i32>, wy: int, ww: int, n: nat, x: int, y: int)
    requires
        n <= ys.len(),
        0 < ww,
        0 <= y < p.len(),
        0 <= x < p[y].len(),
        forall|k: int| 0 <= k < ys.len() ==> !(-2 <= #[trigger] ys[k] - wy - y <= 2),
    ensures
        fullscan_viz::level_glows(p, ys, wy, ww, n).len() == p.len(),
        fullscan_viz::level_glows(p, ys, wy, ww, n)[y].len() == p[y].len(),
        fullscan_viz::level_glows(p, ys, wy, ww, n)[y][x] == p[y][x],
    decreases n,
{
    if n > 0 {
        lemma_level_leaves(p, ys, wy, ww, (n - 1) as nat, x, y);
        let before = fullscan_viz::level_glows(p, ys, wy, ww, (n - 1) as nat);
        assert(!(-2 <= ys[n - 1] - wy - y <= 2));
        lemma_glow(before, ys[n - 1] - wy, ww, false, x, y);
    }
}

/// Whether a pixel of a window lies at most `half` beside a segment.
pub open spec fn beside(s: Segment, window: Region, half: int, x: int, y: int) -> bool {
    match s.orientation {
        Orientation::Vertical => -half <= x - (s.fixed - window.0) <= half && canvas::between(
            s.start - window.1,
            y,
            s.end - window.1,
        ),
        Orientation::Horizontal => -half <= y - (s.fixed - window.1) <= half && canvas::between(
            s.start - window.0,
            x,
            s.end - window.0,
        ),
    }
}

proof fn lemma_lines_exactly(
    p: Pixels,
    s: Segment,
    c: Rgba,
    window: Region,
    reach: int,
    n: nat,
    x: int,
    y: int,
)
    requires
        0 <= y < p.len(),
        0 <= x < p[y].len(),
    ensures
        ({
            let q = growth_viz::with_lines(p, s, c, window, reach, n);
            let off = match s.orientation {
                Orientation::Vertical => x - (s.fixed - window.0),
                Orientation::Horizontal => y - (s.fixed - window.1),
            };
            let along = match s.orientation {
                Orientation::Vertical => canvas::between(s.start - window.1, y, s.end - window.1),
                Orientation::Horizontal => canvas::between(s.start - window.0, x, s.end - window.0),
            };
            &&& q.len() == p.len()
            &&& q[y].len() == p[y].len()
            &&& q[y][x] == if -reach <= off < n - reach && along {
                c
            } else {
                p[y][x]
            }
        }),
    decreases n,
{
    if n > 0 {
        lemma_lines_exactly(p, s, c, window, reach, (n - 1) as nat, x, y);
    }
}

/// A segment is drawn as wide as its thickness, or a pixel wider if that is even, and nothing beside it
/// changes.
pub proof fn lines_have_their_thickness(
    p: Pixels,
    s: Segment,
    c: Rgba,
    window: Region,
    thickness: int,
    x: int,
    y: int,
)
    requires
        0 < thickness,
        0 <= y < p.len(),
        0 <= x < p[y].len(),
    ensures
        growth_viz::with_segment(p, s, c, window, thickness)[y][x] == if beside(
            s,
            window,
            thickness / 2,
            x,
            y,
        ) {
            c
        } else {
            p[y][x]
        },
{
    let half = thickness / 2;
    lemma_lines_exactly(p, s, c, window, half, (2 * half + 1) as nat, x, y);
}

/// Whether a pixel of a window lies on a dot: a square about a place in the window, moved in from the
/// left and the upper edge.
pub open spec fn on_dot(at: (i32, i32), window: Region, size: int, x: int, y: int) -> bool {
    let (ax, ay) = (at.0 - window.0, at.1 - window.1);
    let left = if ax < size / 2 {
        0
    } else {
        ax - size / 2
    };
    let top = if ay < size / 2 {
        0
    } else {
        ay - size / 2
    };
    &&& 0 <= ax < window.2
    &&& 0 <= ay < window.3
    &&& left <= x < left + size
    &&& top <= y < top + size
}

/// A dot colors its square and nothing else.
pub proof fn dots_are_squares(
    p: Pixels,
    at: (i32, i32),
    window: Region,
    c: Rgba,
    size: int,
    x: int,
    y: int,
)
    requires
        0 < size,
        0 <= y < p.len(),
        0 <= x < p[y].len(),
    ensures
        growth_viz::with_dot(p, (at.0 as int, at.1 as int), window, c, size)[y][x] == if on_dot(
            at,
            window,
            size,
            x,
            y,
        ) {
            c
        } else {
            p[y][x]
        },
{
}

/// The seeds that are done are blue dots of two pixels, and nothing else changes.
pub proof fn seeds_are_small_dots(
    p: Pixels,
    seeds: Seq<(i32, i32)>,
    window: Region,
    n: nat,
    x: int,
    y: int,
)
    requires
        n <= seeds.len(),
        0 <= y < p.len(),
        0 <= x < p[y].len(),
    ensures
        ({
            let q = growth_viz::with_seeds(p, seeds, window, n);
            &&& q.len() == p.len()
            &&& q[y].len() == p[y].len()
            &&& q[y][x] == if exists|i: int|
                0 <= i < n && on_dot(#[trigger] seeds[i], window, 2, x, y) {
                (60u8, 60u8, 160u8, 255u8)
            } else {
                p[y][x]
            }
        }),
    decreases n,
{
    if n > 0 {
        seeds_are_small_dots(p, seeds, window, (n - 1) as nat, x, y);
        let before = growth_viz::with_seeds(p, seeds, window, (n - 1) as nat);
        dots_are_squares(before, seeds[n - 1], window, (60u8, 60u8, 160u8, 255u8), 2, x, y);
        if exists|i: int| 0 <= i < n && on_dot(#[trigger] seeds[i], window, 2, x, y) {
            let i = choose|i: int| 0 <= i < n && on_dot(#[trigger] seeds[i], window, 2, x, y);
            if i < n - 1 {
                assert(on_dot(seeds[i], window, 2, x, y));
            }
        }
    }
}

/// Whether a pixel of a window lies on the dot where a ray hits something.
pub open spec fn on_hit(
    picture: Picture,
    seed: (i32, i32),
    dir: growth::RayDirection,
    window: Region,
    x: int,
    y: int,
) -> bool {
    match growth::ray_hit(picture, seed, dir, window) {
        Some((hx, hy, _)) => on_dot((hx, hy), window, 3, x, y),
        None => false,
    }
}

/// Whether a pixel of a window lies between a seed and what its ray hits.
pub open spec fn on_ray(
    picture: Picture,
    seed: (i32, i32),
    dir: growth::RayDirection,
    window: Region,
    x: int,
    y: int,
) -> bool {
    match growth::ray_hit(picture, seed, dir, window) {
        Some((hx, hy, _)) => canvas::between(seed.0 - window.0, x, hx - window.0)
            && canvas::between(seed.1 - window.1, y, hy - window.1),
        None => false,
    }
}

/// A ray is orange up to the red dot of three pixels where it ends, and nothing else changes.
pub proof fn rays_end_in_dots(
    p: Pixels,
    picture: Picture,
    seed: (i32, i32),
    dir: growth::RayDirection,
    window: Region,
    x: int,
    y: int,
)
    requires
        0 <= y < p.len(),
        0 <= x < p[y].len(),
    ensures
        ({
            let q = growth_viz::with_ray(p, picture, seed, dir, window);
            &&& q.len() == p.len()
            &&& q[y].len() == p[y].len()
            &&& q[y][x] == if on_hit(picture, seed, dir, window, x, y) {
                (255u8, 60u8, 60u8, 255u8)
            } else if on_ray(picture, seed, dir, window, x, y) {
                (255u8, 140u8, 0u8, 255u8)
            } else {
                p[y][x]
            }
        }),
{
}

/// Whether a pixel of a window lies on the end of one of the four rays of a seed.
pub open spec fn on_some_hit(picture: Picture, seed: (i32, i32), window: Region, x: int, y: int) -> bool {
    ||| on_hit(picture, seed, growth::RayDirection::Left, window, x, y)
    ||| on_hit(picture, seed, growth::RayDirection::Right, window, x, y)
    ||| on_hit(picture, seed, growth::RayDirection::Up, window, x, y)
    ||| on_hit(picture, seed, growth::RayDirection::Down, window, x, y)
}

/// Whether a pixel of a window lies on one of the four rays of a seed.
pub open spec fn on_some_ray(picture: Picture, seed: (i32, i32), window: Region, x: int, y: int) -> bool {
    ||| on_ray(picture, seed, growth::RayDirection::Left, window, x, y)
    ||| on_ray(picture, seed, growth::RayDirection::Right, window, x, y)
    ||| on_ray(picture, seed, growth::RayDirection::Up, window, x, y)
    ||| on_ray(picture, seed, growth::RayDirection::Down, window, x, y)
}

/// A seed at work is a yellow dot of four pixels with a ray in each of the four directions that hits
/// something, and nothing else changes.
pub proof fn seeds_at_work_send_four_rays(
    p: Pixels,
    picture: Picture,
    seed: (i32, i32),
    window: Region,
    x: int,
    y: int,
)
    requires
        0 <= y < p.len(),
        0 <= x < p[y].len(),
    ensures
        ({
            let q = growth_viz::with_active(p, picture, seed, window);
            let hit = on_some_hit(picture, seed, window, x, y);
            let ray = on_some_ray(picture, seed, window, x, y);
            &&& q.len() == p.len()
            &&& q[y].len() == p[y].len()
            &&& hit && !ray ==> q[y][x] == (255u8, 60u8, 60u8, 255u8)
            &&& on_hit(picture, seed, growth::RayDirection::Down, window, x, y) ==> q[y][x] == (
                255u8,
                60u8,
                60u8,
                255u8,
            )
            &&& ray && !hit ==> q[y][x] == (255u8, 140u8, 0u8, 255u8)
            &&& !ray && !hit ==> q[y][x] == if on_dot(seed, window, 4, x, y) {
                (255u8, 220u8, 0u8, 255u8)
            } else {
                p[y][x]
            }
        }),
{
    let dotted = growth_viz::with_dot(
        p,
        (seed.0 as int, seed.1 as int),
        window,
        (255u8, 220u8, 0u8, 255u8),
        4,
    );
    dots_are_squares(p, seed, window, (255u8, 220u8, 0u8, 255u8), 4, x, y);
    let a = growth_viz::with_ray(dotted, picture, seed, growth::RayDirection::Left, window);
    rays_end_in_dots(dotted, picture, seed, growth::RayDirection::Left, window, x, y);
    let b = growth_viz::with_ray(a, picture, seed, growth::RayDirection::Right, window);
    rays_end_in_dots(a, picture, seed, growth::RayDirection::Right, window, x, y);
    let c = growth_viz::with_ray(b, picture, seed, growth::RayDirection::Up, window);
    rays_end_in_dots(b, picture, seed, growth::RayDirection::Up, window, x, y);
    rays_end_in_dots(c, picture, seed, growth::RayDirection::Down, window, x, y);
}

/// A frame of the seeds starts from the gray window with the seeds before it as dots and the lines that
/// they found in green, and each seed of the frame is drawn at work on top of that, in turn.
pub proof fn seed_frames_show_the_seeds_in_turn(g: Growth, from: int, to: int, x: int, y: int)
    requires
        0 <= from <= to <= g.seeds().len(),
        0 <= x < g.window.2,
        0 <= y < g.window.3,
    ensures
        g.seed_frame(from, to).delay_ms == 90,
        from < to ==> g.seed_frame(from, to).pixels == growth_viz::with_active(
            g.seed_frame(from, to - 1).pixels,
            g.picture,
            g.seeds()[to - 1],
            g.window,
        ),
        ({
            let q = g.seed_frame(from, from).pixels;
            let found = g.raw(from as nat);
            &&& (exists|i: int| 0 <= i < found.len() && on_segment(#[trigger] found[i], g.window, x, y))
                ==> q[y][x] == (60u8, 220u8, 90u8, 255u8)
            &&& (forall|i: int|
                0 <= i < found.len() ==> !beside(#[trigger] found[i], g.window, 0, x, y))
                ==> q[y][x] == if exists|i: int|
                0 <= i < from && on_dot(#[trigger] g.seeds()[i], g.window, 2, x, y) {
                (60u8, 60u8, 160u8, 255u8)
            } else {
                g.base()[y][x]
            }
        }),
{
    let green = (60u8, 220u8, 90u8, 255u8);
    let found = g.raw(from as nat);
    let dotted = growth_viz::with_seeds(g.base(), g.seeds(), g.window, from as nat);
    windows_are_shown_in_gray(
        g.picture.gray,
        g.picture.width,
        g.window,
        0,
        growth_viz::BLANK,
        x,
        y,
    );
    seeds_are_small_dots(g.base(), g.seeds(), g.window, from as nat, x, y);
    assert((|s: Segment| growth_viz::RAW_SEGMENT) =~= (|t: Segment| green));
    every_segment_is_drawn(dotted, found, green, g.window, 1, found.len(), x, y);
    if forall|i: int| 0 <= i < found.len() ==> !beside(#[trigger] found[i], g.window, 0, x, y) {
        lemma_off_segments(dotted, found, green, g.window, found.len(), x, y);
    }
}

proof fn lemma_off_segments(
    p: Pixels,
    s: Seq<Segment>,
    c: Rgba,
    window: Region,
    n: nat,
    x: int,
    y: int,
)
    requires
        n <= s.len(),
        0 <= y < p.len(),
        0 <= x < p[y].len(),
        forall|i: int| 0 <= i < s.len() ==> !beside(#[trigger] s[i], window, 0, x, y),
    ensures
        growth_viz::with_segments(p, s, |t: Segment| c, window, 1, n).len() == p.len(),
        growth_viz::with_segments(p, s, |t: Segment| c, window, 1, n)[y].len() == p[y].len(),
        growth_viz::with_segments(p, s, |t: Segment| c, window, 1, n)[y][x] == p[y][x],
    decreases n,
{
    if n > 0 {
        lemma_off_segments(p, s, c, window, (n - 1) as nat, x, y);
        let before = growth_viz::with_segments(p, s, |t: Segment| c, window, 1, (n - 1) as nat);
        assert(!beside(s[n - 1], window, 0, x, y));
        lemma_lines_exactly(before, s[n - 1], c, window, 0, 1, x, y);
    }
}

/// A box has an outline of one pixel, and a second one inside it if it is more than four pixels wide
/// and high; nothing else changes.
pub proof fn boxes_have_two_outlines(p: Pixels, b: Region, window: Region, x: int, y: int)
    requires
        0 <= y < p.len(),
        0 <= x < p[y].len(),
        b.2 >= 0,
        b.3 >= 0,
    ensures
        ({
            let (left, top) = (b.0 - window.0, b.1 - window.1);
            let (right, bottom) = (left + b.2 - 1, top + b.3 - 1);
            let depth = if b.2 > 4 && b.3 > 4 {
                1int
            } else {
                0int
            };
            growth_viz::with_box(p, b, window)[y][x] == if left <= x <= right && top <= y <= bottom
                && (x <= left + depth || x >= right - depth || y <= top + depth || y >= bottom
                - depth) {
                (255u8, 255u8, 0u8, 255u8)
            } else {
                p[y][x]
            }
        }),
{
}

/// A line glows in a bright core with a dim halo two pixels wide on each side.
pub proof fn lines_glow_two_pixels_wide(
    p: Pixels,
    at: int,
    end: int,
    upright: bool,
    x: int,
    y: int,
)
    requires
        0 <= y < p.len(),
        0 <= x < p[y].len(),
        0 < end,
    ensures
        ({
            let q = if upright {
                fullscan_viz::with_glow(p, (at, 0), (at, end))
            } else {
                fullscan_viz::with_glow(p, (0, at), (end, at))
            };
            let (across, along) = if upright {
                (x, y)
            } else {
                (y, x)
            };
            q[y][x] == if along > end || across < at - 2 || across > at + 2 {
                p[y][x]
            } else if across == at {
                (255u8, 255u8, 90u8, 255u8)
            } else {
                (140u8, 120u8, 0u8, 255u8)
            }
        }),
{
}

/// The strip below the picture shows the bars of the columns and the one beside it those of the rows,
/// on a dark ground.
pub proof fn strips_show_the_bars(p: Pixels, b: fullscan_viz::Bars, x: int, y: int)
    requires
        0 < b.columns.len() <= 0x100_0000,
        0 < b.rows.len() <= 0x100_0000,
        forall|i: int| 0 <= i < b.columns.len() ==> #[trigger] b.columns[i] <= b.rows.len(),
        forall|i: int| 0 <= i < b.rows.len() ==> #[trigger] b.rows[i] <= b.columns.len(),
        0 <= y < p.len(),
        0 <= x < p[y].len(),
    ensures
        ({
            let (w, h) = (b.columns.len() as int, b.rows.len() as int);
            let q = fullscan_viz::with_histograms(p, b);
            let dark = (16u8, 16u8, 20u8, 255u8);
            &&& x < w && h <= y < h + 64 ==> q[y][x] == if b.columns[x] > 0 && on_bar(
                fullscan_viz::bar_length(b.columns[x], h as u32),
                h + 64,
                y,
            ) {
                fullscan_viz::color_of(b.column_states[x])
            } else {
                dark
            }
            &&& y < h && w <= x < w + 64 ==> q[y][x] == if b.rows[y] > 0 && on_bar(
                fullscan_viz::bar_length(b.rows[y], w as u32),
                w + 64,
                x,
            ) {
                fullscan_viz::color_of(b.row_states[y])
            } else {
                dark
            }
        }),
{
    let (width, height) = (b.columns.len() as u32, b.rows.len() as u32);
    let dark = (16u8, 16u8, 20u8, 255u8);
    let cleared = canvas::filled(
        canvas::filled(p, 0, height as int, width as int, 64, dark),
        width as int,
        0,
        64,
        height as int,
        dark,
    );
    columns_have_their_bars(
        cleared,
        b.columns,
        b.column_states,
        height,
        b.columns.len(),
        x,
        y,
    );
    let mid = fullscan_viz::column_bars(
        cleared,
        b.columns,
        b.column_states,
        height,
        b.columns.len(),
    );
    rows_have_their_bars(mid, b.rows, b.row_states, width, b.rows.len(), x, y);
}

/// During the sweeps all bars are blue: those of the columns count the rows swept over, and those of
/// the rows the columns.
pub proof fn bars_are_blue_during_the_sweeps(scan: Scan, rows: nat, columns: nat, i: int)
    ensures
        ({
            let b = scan.bars(rows, columns);
            let blue = (80u8, 170u8, 255u8, 255u8);
            &&& b.columns == scan.tallied(Orientation::Vertical, rows)
            &&& b.rows == scan.tallied(Orientation::Horizontal, columns)
            &&& 0 <= i < scan.window.2 ==> fullscan_viz::color_of(b.column_states[i]) == blue
            &&& 0 <= i < scan.window.3 ==> fullscan_viz::color_of(b.row_states[i]) == blue
        }),
{
}

/// The bars below the picture count what the sweep down has passed, and stay while the sweep to the
/// right counts for those beside it.
pub proof fn sweeps_show_the_counts_so_far(scan: Scan, from: int, to: int, x: int, y: int)
    requires
        scan.picture.width <= i32::MAX,
        scan.picture.height <= i32::MAX,
        growth::framed(scan.window),
        0 < scan.window.2 <= 0x100_0000,
        0 < scan.window.3 <= 0x100_0000,
        0 < to,
    ensures
        ({
            let (w, h) = (scan.window.2 as int, scan.window.3 as int);
            let (blue, dark) = ((80u8, 170u8, 255u8, 255u8), (16u8, 16u8, 20u8, 255u8));
            &&& to <= h && 0 <= x < w && h <= y < h + 64 ==> {
                let count = scan.tallied(Orientation::Vertical, to as nat)[x];
                scan.row_frame(from, to).pixels[y][x] == if count > 0 && on_bar(
                    fullscan_viz::bar_length(count, h as u32),
                    h + 64,
                    y,
                ) {
                    blue
                } else {
                    dark
                }
            }
            &&& to <= w && 0 <= y < h && w <= x < w + 64 ==> {
                let count = scan.tallied(Orientation::Horizontal, to as nat)[y];
                scan.column_frame(to).pixels[y][x] == if count > 0 && on_bar(
                    fullscan_viz::bar_length(count, w as u32),
                    w + 64,
                    x,
                ) {
                    blue
                } else {
                    dark
                }
            }
        }),
{
    let (w, h) = (scan.window.2 as int, scan.window.3 as int);
    if to <= h && 0 <= x < w && h <= y < h + 64 {
        lemma_counts(scan, to as nat, 0);
        let swept = canvas::lined(
            scan.marked(from, to),
            (0, to - 1),
            (w, to - 1),
            fullscan_viz::CURSOR,
        );
        strips_show_the_bars(swept, scan.bars(to as nat, 0), x, y);
    }
    if to <= w && 0 <= y < h && w <= x < w + 64 {
        lemma_counts(scan, h as nat, to as nat);
        let swept = canvas::lined(
            scan.marked(0, h),
            (to - 1, 0),
            (to - 1, h),
            fullscan_viz::CURSOR,
        );
        strips_show_the_bars(swept, scan.bars(h as nat, to as nat), x, y);
    }
}

/// The frames of the sweeps and of the seeds pass quickly, and the others are held longer.
pub proof fn frames_have_their_time(scan: Scan, check: CheckKind, from: int, to: int, g: Growth, k: int)
    requires
        scan.window.2 > 0,
        scan.window.3 > 0,
    ensures
        scan.row_frame(from, to).delay_ms == 70,
        scan.column_frame(to).delay_ms == 70,
        ({
            let frames = scan.frames(check);
            frames.len() - 15 <= k < frames.len() ==> frames[k].delay_ms == 140
        }),
        ({
            let frames = g.frames();
            frames.len() - 25 <= k < frames.len() ==> frames[k].delay_ms == 140
        }),
{
    lemma_row_frames(scan, 0);
    lemma_column_frames(scan, 0);
    lemma_seed_frames(g, 0);
}

} // verus!
