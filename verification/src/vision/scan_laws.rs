//! What holds of the lines that a scan of rows and columns finds, down to the pixels.

use vstd::prelude::*;

use crate::pieces;
use crate::vision::dividers::{self, Region};
use crate::vision::edges::{Orientation, Picture};
use crate::vision::fullscan::{self, FullScanOptions};
use crate::vision::growth;
use crate::vision::line_laws;
use crate::vision::lines::{self, LineStats};

verus! {

/// The gray value at `along` on the line `line`: a column for a vertical line, a row for a
/// horizontal one.
pub open spec fn gray_at(p: Picture, orientation: Orientation, line: int, along: int) -> int {
    match orientation {
        Orientation::Vertical => p.gray[along * p.width + line] as int,
        Orientation::Horizontal => p.gray[line * p.width + along] as int,
    }
}

/// The positions from `lo` up to, but not at, `hi` at which the gray value of a line differs by eight
/// or more from that of the line before it.
pub open spec fn steps_on(
    p: Picture,
    orientation: Orientation,
    line: int,
    lo: int,
    hi: int,
) -> Set<int> {
    Set::new(
        |along: int|
            lo <= along < hi && {
                let d = gray_at(p, orientation, line, along) - gray_at(
                    p,
                    orientation,
                    line - 1,
                    along,
                );
                d >= 8 || d <= -8
            },
    )
}

/// How many positions satisfy a test is the size of the set of these positions.
pub proof fn a_tally_is_the_size_of_a_set(
    test: spec_fn(int) -> bool,
    lo: int,
    n: nat,
    found: Set<int>,
)
    requires
        forall|i: int| #[trigger] found.contains(i) <==> lo <= i < lo + n && test(i - lo),
    ensures
        found.finite(),
        found.len() == lines::tally(test, n),
    decreases n,
{
    if n == 0 {
        assert(found =~= Set::empty());
    } else {
        let last = lo + n - 1;
        let before = found.remove(last);
        assert forall|i: int| #[trigger] before.contains(i) <==> lo <= i < lo + (n - 1) && test(
            i - lo,
        ) by {
            assert(before.contains(i) == (found.contains(i) && i != last));
        }
        a_tally_is_the_size_of_a_set(test, lo, (n - 1) as nat, before);
        if test(n - 1) {
            assert(found.contains(last));
            assert(found =~= before.insert(last));
        } else {
            assert(!found.contains(last));
            assert(found =~= before);
        }
    }
}

/// The counts of steps of the lines from `first` up to, but not at, `end`. The first of them has no
/// line before it.
pub open spec fn step_counts(
    p: Picture,
    orientation: Orientation,
    first: int,
    end: int,
    lo: int,
    hi: int,
) -> Seq<u32> {
    Seq::new(
        (end - first) as nat,
        |i: int|
            if i == 0 {
                0
            } else {
                steps_on(p, orientation, first + i, lo, hi).len() as u32
            },
    )
}

/// Whether a line divides the part of a picture between `first` and `end` across it and between `lo`
/// and `hi` along it. It has a line before it there, at 35 per cent of its pixels there are steps, or
/// at 15 per cent with the outermost of them 85 per cent of the way apart, and it stands out among the
/// lines at a distance of 8 to 28 by a factor of 1.6.
pub open spec fn divides_at(
    p: Picture,
    orientation: Orientation,
    first: int,
    end: int,
    lo: int,
    hi: int,
    line: int,
) -> bool {
    let steps = steps_on(p, orientation, line, lo, hi);
    &&& first < line < end
    &&& 100 * steps.len() >= 35 * (hi - lo) || 100 * steps.len() >= 15 * (hi - lo) && exists|
        a: int,
        b: int,
    |
        #[trigger] steps.contains(a) && #[trigger] steps.contains(b) && 100 * (b - a) >= 85 * (hi
            - lo)
    &&& lines::local_peak(
        step_counts(p, orientation, first, end, lo, hi),
        line - first,
        8,
        28,
        8,
        5,
    )
}

/// What a scan knows of its lines is what the picture shows.
pub open spec fn shows(
    stats: Seq<LineStats>,
    p: Picture,
    orientation: Orientation,
    first: int,
    end: int,
    lo: int,
    hi: int,
) -> bool {
    &&& stats.len() == end - first
    &&& forall|i: int| #![trigger stats[i]]
        0 <= i < stats.len() ==> exists|test: spec_fn(int) -> bool|
            stats[i] == #[trigger] LineStats::of(test, (hi - lo) as nat) && forall|k: int|
                0 <= k < hi - lo ==> (#[trigger] test(k) <==> i > 0 && steps_on(
                    p,
                    orientation,
                    first + i,
                    lo,
                    hi,
                ).contains(lo + k))
}

proof fn lemma_stats(
    stats: Seq<LineStats>,
    p: Picture,
    orientation: Orientation,
    first: int,
    end: int,
    lo: int,
    hi: int,
    i: int,
)
    requires
        shows(stats, p, orientation, first, end, lo, hi),
        0 <= i < stats.len(),
        0 < hi - lo <= i32::MAX,
    ensures
        steps_on(p, orientation, first + i, lo, hi).finite(),
        stats[i].count == if i == 0 {
            0
        } else {
            steps_on(p, orientation, first + i, lo, hi).len() as int
        },
        stats[i].first is Some <==> stats[i].last is Some,
        i == 0 ==> stats[i].first is None,
        stats[i].first is Some ==> {
            let steps = steps_on(p, orientation, first + i, lo, hi);
            &&& steps.contains(lo + stats[i].first->0)
            &&& steps.contains(lo + stats[i].last->0)
            &&& forall|a: int|
                #[trigger] steps.contains(a) ==> lo + stats[i].first->0 <= a <= lo
                    + stats[i].last->0
        },
        i > 0 && stats[i].first is None ==> forall|a: int|
            !#[trigger] steps_on(p, orientation, first + i, lo, hi).contains(a),
{
    let steps = steps_on(p, orientation, first + i, lo, hi);
    let n = (hi - lo) as nat;
    let test = choose|test: spec_fn(int) -> bool|
        stats[i] == #[trigger] LineStats::of(test, (hi - lo) as nat) && forall|k: int|
            0 <= k < hi - lo ==> (#[trigger] test(k) <==> i > 0 && steps_on(
                p,
                orientation,
                first + i,
                lo,
                hi,
            ).contains(lo + k));
    lines::stats_summarise_the_line(test, n);
    let all = |k: int| steps.contains(lo + k);
    a_tally_is_the_size_of_a_set(all, lo, n, steps);
    if i == 0 {
        a_tally_is_the_size_of_a_set(test, lo, n, Set::<int>::empty());
    } else {
        assert forall|a: int| #[trigger] steps.contains(a) <==> lo <= a < lo + n && test(
            a - lo,
        ) by {
            if lo <= a < lo + n {
                assert(test(a - lo) <==> steps.contains(lo + (a - lo)));
            }
        }
        a_tally_is_the_size_of_a_set(test, lo, n, steps);
        if stats[i].first is Some {
            let (f, l) = (stats[i].first->0 as int, stats[i].last->0 as int);
            assert(test(f) && test(l));
            assert forall|a: int| #[trigger] steps.contains(a) implies lo + f <= a <= lo + l by {
                assert(test(a - lo));
            }
        } else {
            assert forall|a: int| !#[trigger] steps.contains(a) by {
                if steps.contains(a) {
                    assert(test(a - lo));
                }
            }
        }
    }
}

proof fn lemma_divides(
    stats: Seq<LineStats>,
    p: Picture,
    orientation: Orientation,
    first: int,
    end: int,
    lo: int,
    hi: int,
    i: int,
)
    requires
        shows(stats, p, orientation, first, end, lo, hi),
        0 <= i < stats.len(),
        0 < hi - lo <= i32::MAX,
    ensures
        dividers::divides(stats, hi - lo, i) <==> divides_at(
            p,
            orientation,
            first,
            end,
            lo,
            hi,
            first + i,
        ),
{
    let n = hi - lo;
    lemma_stats(stats, p, orientation, first, end, lo, hi, i);
    let steps = steps_on(p, orientation, first + i, lo, hi);
    let count = stats[i].count as int;
    assert(dividers::counts_of(stats) =~= step_counts(p, orientation, first, end, lo, hi)) by {
        assert forall|k: int| 0 <= k < stats.len() implies dividers::counts_of(stats)[k]
            == step_counts(p, orientation, first, end, lo, hi)[k] by {
            lemma_stats(stats, p, orientation, first, end, lo, hi, k);
        }
    }
    lines::a_share_is_at_least_its_percentage(count, n, 35);
    lines::a_share_is_at_least_its_percentage(count, n, 15);
    if stats[i].first is Some {
        let (f, l) = (stats[i].first->0 as int, stats[i].last->0 as int);
        lines::a_share_is_at_least_its_percentage(l - f, n, 85);
        assert(steps.contains(lo + f) && steps.contains(lo + l));
        if exists|a: int, b: int|
            #[trigger] steps.contains(a) && #[trigger] steps.contains(b) && 100 * (b - a) >= 85
                * n {
            let (a, b) = choose|a: int, b: int|
                #[trigger] steps.contains(a) && #[trigger] steps.contains(b) && 100 * (b - a)
                    >= 85 * n;
            assert(b - a <= l - f);
        }
        if 100 * (l - f) >= 85 * n {
            assert(100 * ((lo + l) - (lo + f)) >= 85 * n);
        }
    }
}

/// The positions of a sequence are those of the lines that divide, one for each run of nearby ones:
/// each is a line that divides, they are more than four apart in ascending order, and every line that
/// divides is one of them or lies at most four behind one.
pub open spec fn are_the_dividers(
    at: Seq<i32>,
    p: Picture,
    orientation: Orientation,
    first: int,
    end: int,
    lo: int,
    hi: int,
) -> bool {
    &&& forall|k: int|
        0 <= k < at.len() ==> divides_at(
            p,
            orientation,
            first,
            end,
            lo,
            hi,
            #[trigger] at[k] as int,
        )
    &&& forall|j: int, k: int| 0 <= j < k < at.len() ==> #[trigger] at[k] - #[trigger] at[j] > 4
    &&& forall|line: int| #[trigger]
        divides_at(p, orientation, first, end, lo, hi, line) ==> exists|k: int|
            0 <= k < at.len() && #[trigger] at[k] <= line <= at[k] + 4
}

proof fn lemma_positions_complete(
    stats: Seq<LineStats>,
    origin: int,
    extent: int,
    n: nat,
)
    requires
        0 <= origin,
        origin + n <= i32::MAX,
    ensures
        forall|v: i32|
            #[trigger] dividers::divider_positions(stats, origin, extent, n).contains(v) <==> origin
                <= v < origin + n && dividers::divides(stats, extent, v - origin),
    decreases n,
{
    if n > 0 {
        lemma_positions_complete(stats, origin, extent, (n - 1) as nat);
        let before = dividers::divider_positions(stats, origin, extent, (n - 1) as nat);
        let all = dividers::divider_positions(stats, origin, extent, n);
        assert forall|v: i32| #[trigger] all.contains(v) <==> origin <= v < origin + n
            && dividers::divides(stats, extent, v - origin) by {
            if all.contains(v) {
                let k = choose|k: int| 0 <= k < all.len() && all[k] == v;
                if k < before.len() {
                    assert(before[k] == v);
                    assert(before.contains(v));
                }
            }
            if origin <= v < origin + n && dividers::divides(stats, extent, v - origin) {
                if v < origin + n - 1 {
                    assert(before.contains(v));
                    let k = choose|k: int| 0 <= k < before.len() && before[k] == v;
                    assert(all[k] == v);
                } else {
                    assert(all[all.len() - 1] == v);
                }
            }
        }
    }
}

proof fn lemma_cuts_are_the_dividers(
    stats: Seq<LineStats>,
    p: Picture,
    orientation: Orientation,
    first: int,
    end: int,
    lo: int,
    hi: int,
)
    requires
        shows(stats, p, orientation, first, end, lo, hi),
        0 <= first <= end <= i32::MAX,
        0 < hi - lo <= i32::MAX,
    ensures
        are_the_dividers(
            dividers::cuts(stats, first, hi - lo),
            p,
            orientation,
            first,
            end,
            lo,
            hi,
        ),
{
    let found = dividers::divider_positions(stats, first, hi - lo, stats.len());
    let at = dividers::cuts(stats, first, hi - lo);
    lemma_positions_complete(stats, first, hi - lo, stats.len());
    lines::merging_spaces_and_covers(found, lines::DIVIDER_MERGE_GAP as int);
    assert forall|k: int| 0 <= k < at.len() implies divides_at(
        p,
        orientation,
        first,
        end,
        lo,
        hi,
        #[trigger] at[k] as int,
    ) by {
        assert(at.contains(at[k]));
        assert(found.contains(at[k]));
        lemma_divides(stats, p, orientation, first, end, lo, hi, at[k] - first);
    }
    assert forall|line: int| #[trigger]
        divides_at(p, orientation, first, end, lo, hi, line) implies exists|k: int|
        0 <= k < at.len() && #[trigger] at[k] <= line <= at[k] + 4 by {
        lemma_divides(stats, p, orientation, first, end, lo, hi, line - first);
        let v = line as i32;
        assert(found.contains(v));
        let k = choose|k: int|
            0 <= k < at.len() && #[trigger] at[k] <= v <= at[k] + lines::DIVIDER_MERGE_GAP;
        assert(at[k] <= line <= at[k] + 4);
    }
}

/// The vertical cuts of a window are the columns that divide the visible part of it, and its
/// horizontal cuts are the rows that do.
pub proof fn cuts_lie_where_lines_divide(p: Picture, window: Region)
    requires
        window.0 + window.2 <= i32::MAX,
        window.1 + window.3 <= i32::MAX,
        window.0 < p.width,
        window.1 < p.height,
        window.0 + window.2 > 0,
        window.1 + window.3 > 0,
        window.2 > 0,
        window.3 > 0,
        p.width > 0,
        p.height > 0,
    ensures
        ({
            let x0 = if window.0 > 0 {
                window.0 as int
            } else {
                0
            };
            let y0 = if window.1 > 0 {
                window.1 as int
            } else {
                0
            };
            let x1 = if window.0 + window.2 < p.width {
                window.0 + window.2
            } else {
                p.width as int
            };
            let y1 = if window.1 + window.3 < p.height {
                window.1 + window.3
            } else {
                p.height as int
            };
            &&& are_the_dividers(
                dividers::column_cuts(p, window),
                p,
                Orientation::Vertical,
                x0,
                x1,
                y0,
                y1,
            )
            &&& are_the_dividers(
                dividers::row_cuts(p, window),
                p,
                Orientation::Horizontal,
                y0,
                y1,
                x0,
                x1,
            )
        }),
{
    let x0 = dividers::visible_start(window.0 as int);
    let y0 = dividers::visible_start(window.1 as int);
    let x1 = dividers::visible_end(window.0 + window.2, p.width as int);
    let y1 = dividers::visible_end(window.1 + window.3, p.height as int);
    let columns = dividers::column_stats(p, x0, x1, y0, y1);
    let rows = dividers::row_stats(p, x0, x1, y0, y1);
    assert forall|i: int| #![trigger columns[i]] 0 <= i < columns.len() implies exists|
        test: spec_fn(int) -> bool,
    |
        columns[i] == #[trigger] LineStats::of(test, (y1 - y0) as nat) && forall|k: int|
            0 <= k < y1 - y0 ==> (#[trigger] test(k) <==> i > 0 && steps_on(
                p,
                Orientation::Vertical,
                x0 + i,
                y0,
                y1,
            ).contains(y0 + k)) by {
        let test = dividers::column_step(p, x0, y0, i);
        assert(columns[i] == LineStats::of(test, (y1 - y0) as nat));
    }
    assert forall|i: int| #![trigger rows[i]] 0 <= i < rows.len() implies exists|
        test: spec_fn(int) -> bool,
    |
        rows[i] == #[trigger] LineStats::of(test, (x1 - x0) as nat) && forall|k: int|
            0 <= k < x1 - x0 ==> (#[trigger] test(k) <==> i > 0 && steps_on(
                p,
                Orientation::Horizontal,
                y0 + i,
                x0,
                x1,
            ).contains(x0 + k)) by {
        let test = dividers::row_step(p, x0, y0, i);
        assert(rows[i] == LineStats::of(test, (x1 - x0) as nat));
    }
    lemma_cuts_are_the_dividers(columns, p, Orientation::Vertical, x0, x1, y0, y1);
    lemma_cuts_are_the_dividers(rows, p, Orientation::Horizontal, y0, y1, x0, x1);
}

/// A rectangle that is 150 pixels wide and high, and the panels of what is left of it without a
/// margin of six pixels; nothing if it is smaller.
pub open spec fn panel_and_inside(p: Picture, r: Region, depth: nat) -> Seq<Region> {
    if r.2 >= 150 && r.3 >= 150 {
        seq![r] + dividers::panels(
            p,
            ((r.0 + 6) as i32, (r.1 + 6) as i32, (r.2 - 12) as i32, (r.3 - 12) as i32),
            depth,
        )
    } else {
        Seq::empty()
    }
}

/// The panels of the columns between the neighboring ones of `at`, over the whole height of a window.
pub open spec fn columns_between(p: Picture, window: Region, at: Seq<i32>, depth: nat) -> Seq<
    Seq<Region>,
> {
    Seq::new(
        (at.len() - 1) as nat,
        |k: int|
            panel_and_inside(p, (at[k], window.1, (at[k + 1] - at[k]) as i32, window.3), depth),
    )
}

/// The panels of the rows between the neighboring ones of `at`, over the whole width of a window.
pub open spec fn rows_between(p: Picture, window: Region, at: Seq<i32>, depth: nat) -> Seq<
    Seq<Region>,
> {
    Seq::new(
        (at.len() - 1) as nat,
        |k: int|
            panel_and_inside(p, (window.0, at[k], window.2, (at[k + 1] - at[k]) as i32), depth),
    )
}

proof fn lemma_strips(
    p: Picture,
    window: Region,
    at: Seq<i32>,
    columns: bool,
    n: nat,
    depth: nat,
)
    requires
        window.2 >= 150,
        window.3 >= 150,
        n < at.len(),
    ensures
        dividers::strips(p, window, at, columns, n, depth) == (if columns {
            columns_between(p, window, at, depth)
        } else {
            rows_between(p, window, at, depth)
        }).take(n as int).flatten(),
    decreases n,
{
    let all = if columns {
        columns_between(p, window, at, depth)
    } else {
        rows_between(p, window, at, depth)
    };
    if n == 0 {
        assert(all.take(0) =~= Seq::empty());
    } else {
        lemma_strips(p, window, at, columns, (n - 1) as nat, depth);
        let before = all.take(n - 1);
        before.lemma_flatten_push(all[n - 1]);
        assert(all.take(n as int) =~= before.push(all[n - 1]));
        let r = if columns {
            (at[n - 1], window.1, (at[n as int] - at[n - 1]) as i32, window.3)
        } else {
            (window.0, at[n - 1], window.2, (at[n as int] - at[n - 1]) as i32)
        };
        let earlier = dividers::strips(p, window, at, columns, (n - 1) as nat, depth);
        if r.2 >= 150 && r.3 >= 150 {
            let inside = dividers::panels(
                p,
                ((r.0 + 6) as i32, (r.1 + 6) as i32, (r.2 - 12) as i32, (r.3 - 12) as i32),
                depth,
            );
            assert(earlier.push(r) + inside =~= earlier + (seq![r] + inside));
        } else {
            assert(earlier + Seq::<Region>::empty() =~= earlier);
        }
    }
}

/// Whether some of a window is on a picture.
pub open spec fn shown(p: Picture, window: Region) -> bool {
    &&& 0 < p.width
    &&& 0 < p.height
    &&& window.0 < p.width
    &&& window.1 < p.height
    &&& 0 < window.0 + window.2
    &&& 0 < window.1 + window.3
}

/// The panels of a window are, from left to right, those columns between neighboring vertical cuts
/// that are large enough, each followed by the panels inside of it. Where there is no vertical cut,
/// they are the rows between the horizontal ones, and where there is no cut at all, there is none.
pub proof fn panels_fill_the_space_between_cuts(p: Picture, window: Region, depth: nat)
    requires
        depth > 0,
        window.2 >= 150,
        window.3 >= 150,
        window.0 + window.2 <= i32::MAX,
        window.1 + window.3 <= i32::MAX,
        shown(p, window),
    ensures
        ({
            let xs = dividers::column_cuts(p, window);
            let ys = dividers::row_cuts(p, window);
            let found = dividers::panels(p, window, depth);
            let (right, bottom) = ((window.0 + window.2) as i32, (window.1 + window.3) as i32);
            &&& xs.len() > 0 ==> found == columns_between(
                p,
                window,
                seq![window.0] + xs + seq![right],
                (depth - 1) as nat,
            ).flatten()
            &&& xs.len() == 0 && ys.len() > 0 ==> found == rows_between(
                p,
                window,
                seq![window.1] + ys + seq![bottom],
                (depth - 1) as nat,
            ).flatten()
            &&& xs.len() == 0 && ys.len() == 0 ==> found.len() == 0
        }),
{
    let xs = dividers::column_cuts(p, window);
    let ys = dividers::row_cuts(p, window);
    let (right, bottom) = ((window.0 + window.2) as i32, (window.1 + window.3) as i32);
    let columns = xs.len() > 0;
    let at = if columns {
        seq![window.0] + xs + seq![right]
    } else {
        seq![window.1] + ys + seq![bottom]
    };
    let all = if columns {
        columns_between(p, window, at, (depth - 1) as nat)
    } else {
        rows_between(p, window, at, (depth - 1) as nat)
    };
    lemma_strips(p, window, at, columns, (at.len() - 1) as nat, (depth - 1) as nat);
    assert(all.take(at.len() - 1) =~= all);
}

/// No column between two neighboring vertical cuts is left out, if it is large enough for a panel:
/// it is reported as it is, and the panels inside of it behind it. Without vertical cuts, the same
/// holds of the rows.
pub proof fn no_panel_is_left_out(p: Picture, window: Region, depth: nat, k: int)
    requires
        depth > 0,
        window.2 >= 150,
        window.3 >= 150,
        window.0 + window.2 <= i32::MAX,
        window.1 + window.3 <= i32::MAX,
        shown(p, window),
    ensures
        ({
            let xs = dividers::column_cuts(p, window);
            let ys = dividers::row_cuts(p, window);
            let found = dividers::panels(p, window, depth);
            let (right, bottom) = ((window.0 + window.2) as i32, (window.1 + window.3) as i32);
            let at = if xs.len() > 0 {
                seq![window.0] + xs + seq![right]
            } else {
                seq![window.1] + ys + seq![bottom]
            };
            0 <= k < at.len() - 1 && at.len() > 2 && at[k + 1] - at[k] >= 150 ==> {
                let size = (at[k + 1] - at[k]) as i32;
                let r = if xs.len() > 0 {
                    (at[k], window.1, size, window.3)
                } else {
                    (window.0, at[k], window.2, size)
                };
                &&& found.contains(r)
                &&& pieces::holds(
                    found,
                    seq![r] + dividers::panels(
                        p,
                        ((r.0 + 6) as i32, (r.1 + 6) as i32, (r.2 - 12) as i32, (r.3 - 12) as i32),
                        (depth - 1) as nat,
                    ),
                )
            }
        }),
{
    let xs = dividers::column_cuts(p, window);
    let ys = dividers::row_cuts(p, window);
    let found = dividers::panels(p, window, depth);
    let (right, bottom) = ((window.0 + window.2) as i32, (window.1 + window.3) as i32);
    let below = (depth - 1) as nat;
    let at = if xs.len() > 0 {
        seq![window.0] + xs + seq![right]
    } else {
        seq![window.1] + ys + seq![bottom]
    };
    if 0 <= k < at.len() - 1 && at.len() > 2 && at[k + 1] - at[k] >= 150 {
        assert(found == if xs.len() > 0 {
            columns_between(p, window, at, below).flatten()
        } else {
            rows_between(p, window, at, below).flatten()
        }) by {
            panels_fill_the_space_between_cuts(p, window, depth);
        }
        assert(at[k + 1] - at[k] <= i32::MAX) by {
            cuts_lie_where_lines_divide(p, window);
            let cuts = if xs.len() > 0 {
                xs
            } else {
                ys
            };
            assert(k > 0 ==> at[k] == cuts[k - 1]);
            assert(k + 1 < at.len() - 1 ==> at[k + 1] == cuts[k]);
        }
        if xs.len() > 0 {
            lemma_panel_is_there(columns_between(p, window, at, below), k);
        } else {
            lemma_panel_is_there(rows_between(p, window, at, below), k);
        }
    }
}

proof fn lemma_panel_is_there(all: Seq<Seq<Region>>, k: int)
    requires
        0 <= k < all.len(),
        all[k].len() > 0,
    ensures
        all.flatten().contains(all[k][0]),
        pieces::holds(all.flatten(), all[k]),
{
    let found = all.flatten();
    let piece = all[k];
    pieces::every_piece_is_there(all, k);
    let i = choose|i: int|
        0 <= i && i + piece.len() <= found.len() && #[trigger] found.subrange(i, i + piece.len())
            == piece;
    assert(found.subrange(i, i + piece.len())[0] == found[i]);
}

/// A window that is too small, or of which nothing is on the picture, has no panel, and nothing is
/// searched without a level left.
pub proof fn panels_need_room(p: Picture, window: Region, depth: nat)
    requires
        depth == 0 || window.2 < 150 || window.3 < 150 || !shown(p, window),
    ensures
        dividers::panels(p, window, depth).len() == 0,
{
}

/// Whether a pixel of a picture and the one before it across a line both exist.
pub open spec fn between_pixels(p: Picture, orientation: Orientation, line: int, along: int) -> bool {
    match orientation {
        Orientation::Vertical => 0 < line < p.width && 0 <= along < p.height,
        Orientation::Horizontal => 0 < line < p.height && 0 <= along < p.width,
    }
}

/// Whether the gray value changes by eight or more across a line at a pixel of the picture.
pub open spec fn changes_at(p: Picture, orientation: Orientation, line: int, along: int) -> bool {
    let d = gray_at(p, orientation, line, along) - gray_at(p, orientation, line - 1, along);
    between_pixels(p, orientation, line, along) && (d >= 8 || d <= -8)
}

/// The positions from `lo` up to, but not at, `hi` at which the gray value changes by eight or more
/// across a line, within the picture.
pub open spec fn changes_on(
    p: Picture,
    orientation: Orientation,
    line: int,
    lo: int,
    hi: int,
) -> Set<int> {
    Set::new(
        |along: int|
            between_pixels(p, orientation, line, along) && steps_on(
                p,
                orientation,
                line,
                lo,
                hi,
            ).contains(along),
    )
}

/// A pixel is an edge of a line where the gray value changes by eight or more across it, in the
/// picture.
pub proof fn edges_are_changes(
    p: Picture,
    orientation: Orientation,
    line: int,
    along: int,
    lo: int,
    hi: int,
)
    requires
        p.width <= i32::MAX,
        p.height <= i32::MAX,
    ensures
        growth::on_line(p, orientation, line, along) <==> changes_at(p, orientation, line, along),
        p.edge(line, along, Orientation::Vertical) <==> changes_at(
            p,
            Orientation::Vertical,
            line,
            along,
        ),
        p.edge(along, line, Orientation::Horizontal) <==> changes_at(
            p,
            Orientation::Horizontal,
            line,
            along,
        ),
        lo <= along < hi ==> (growth::on_line(p, orientation, line, along) <==> changes_on(
            p,
            orientation,
            line,
            lo,
            hi,
        ).contains(along)),
{
}

pub(crate) proof fn lemma_changes(p: Picture, orientation: Orientation, line: int, lo: int, n: nat)
    requires
        p.width <= i32::MAX,
        p.height <= i32::MAX,
    ensures
        changes_on(p, orientation, line, lo, lo + n).finite(),
        changes_on(p, orientation, line, lo, lo + n).len() == lines::tally(
            fullscan::changes(p, orientation, line, lo),
            n,
        ),
        changes_on(p, orientation, line, lo, lo + n).len() <= n,
{
    let found = changes_on(p, orientation, line, lo, lo + n);
    let test = fullscan::changes(p, orientation, line, lo);
    assert forall|i: int| #[trigger] found.contains(i) <==> lo <= i < lo + n && test(i - lo) by {
        if lo <= i < lo + n {
            edges_are_changes(p, orientation, line, i, lo, lo + n);
            assert(lo + (i - lo) == i);
        }
    }
    a_tally_is_the_size_of_a_set(test, lo, n, found);
    fullscan::lemma_tally(test, n);
}

/// The sizes of the changes on a line, in the order of their positions.
pub open spec fn sizes_on(
    p: Picture,
    orientation: Orientation,
    line: int,
    lo: int,
    n: nat,
) -> Seq<int> {
    Seq::new(n, |i: int| lo + i).filter(
        |along: int| changes_on(p, orientation, line, lo, lo + n).contains(along),
    ).map_values(
        |along: int|
            {
                let d = gray_at(p, orientation, line, along) - gray_at(
                    p,
                    orientation,
                    line - 1,
                    along,
                );
                if d >= 0 {
                    d
                } else {
                    -d
                }
            },
    )
}

proof fn lemma_sizes(p: Picture, orientation: Orientation, line: int, lo: int, n: nat)
    requires
        p.width <= i32::MAX,
        p.height <= i32::MAX,
    ensures
        fullscan::magnitudes(p, orientation, line, lo, n) == line_laws::spread_of(
            sizes_on(p, orientation, line, lo, n),
        ),
    decreases n,
{
    reveal(Seq::filter);
    let size = |along: int|
        {
            let d = gray_at(p, orientation, line, along) - gray_at(p, orientation, line - 1, along);
            if d >= 0 {
                d
            } else {
                -d
            }
        };
    let keep = |along: int| changes_on(p, orientation, line, lo, lo + n).contains(along);
    let at = Seq::new(n, |i: int| lo + i);
    let all = at.filter(keep).map_values(size);
    assert(sizes_on(p, orientation, line, lo, n) == all);
    if n == 0 {
        assert(all =~= Seq::empty());
    } else {
        let m = (n - 1) as nat;
        let keep_before = |along: int| changes_on(p, orientation, line, lo, lo + m).contains(along);
        let at_before = Seq::new(m, |i: int| lo + i);
        let before = at_before.filter(keep_before).map_values(size);
        lemma_sizes(p, orientation, line, lo, m);
        assert(sizes_on(p, orientation, line, lo, m) == before);
        assert(at.drop_last() =~= at_before);
        lemma_filter_same(at_before, keep_before, keep);
        edges_are_changes(p, orientation, line, lo + n - 1, lo, lo + n);
        if keep(lo + n - 1) {
            assert(all.drop_last() =~= before);
            assert(all.last() == size(lo + n - 1));
        } else {
            assert(all =~= before);
        }
    }
}

proof fn lemma_filter_same<A>(s: Seq<A>, f: spec_fn(A) -> bool, g: spec_fn(A) -> bool)
    requires
        forall|i: int| 0 <= i < s.len() ==> f(#[trigger] s[i]) == g(s[i]),
    ensures
        s.filter(f) == s.filter(g),
    decreases s.len(),
{
    reveal(Seq::filter);
    if s.len() > 0 {
        let front = s.drop_last();
        assert forall|i: int| 0 <= i < front.len() implies f(#[trigger] front[i]) == g(
            front[i],
        ) by {
            assert(front[i] == s[i]);
        }
        lemma_filter_same(front, f, g);
        assert(f(s[s.len() - 1]) == g(s[s.len() - 1]));
    }
}

/// How many lines of an orientation a window has, and how long they are.
pub open spec fn lines_of(window: Region, orientation: Orientation) -> (int, nat, int, nat) {
    let width = if window.2 > 0 {
        window.2 as nat
    } else {
        0
    };
    let height = if window.3 > 0 {
        window.3 as nat
    } else {
        0
    };
    match orientation {
        Orientation::Vertical => (window.0 as int, width, window.1 as int, height),
        Orientation::Horizontal => (window.1 as int, height, window.0 as int, width),
    }
}

/// Whether a line of a window is one: at least at half of its pixels the gray value changes across
/// it. If its peak is checked, it stands out among the lines at a distance of 8 to 28 by a factor of
/// 1.6, and if its uniformity is, the standard deviation of the changes is no more than 35.
pub open spec fn is_line(
    p: Picture,
    window: Region,
    orientation: Orientation,
    options: FullScanOptions,
    line: int,
) -> bool {
    let (first, number, lo, n) = lines_of(window, orientation);
    &&& first <= line < first + number
    &&& 2 * changes_on(p, orientation, line, lo, lo + n).len() >= n
    &&& options.peak_check ==> lines::local_peak(
        Seq::new(
            number,
            |i: int| changes_on(p, orientation, first + i, lo, lo + n).len() as u32,
        ),
        line - first,
        8,
        28,
        8,
        5,
    )
    &&& options.uniformity_check ==> !line_laws::spread_of(
        sizes_on(p, orientation, line, lo, n),
    ).deviates(35)
}

pub(crate) proof fn lemma_survives(
    p: Picture,
    window: Region,
    orientation: Orientation,
    options: FullScanOptions,
    i: int,
)
    requires
        p.width <= i32::MAX,
        p.height <= i32::MAX,
        growth::framed(window),
        0 <= i < lines_of(window, orientation).1,
    ensures
        fullscan::survives(p, window, orientation, options, i) <==> is_line(
            p,
            window,
            orientation,
            options,
            lines_of(window, orientation).0 + i,
        ),
{
    let (first, number, lo, n) = lines_of(window, orientation);
    let counts = Seq::new(
        number,
        |i: int| changes_on(p, orientation, first + i, lo, lo + n).len() as u32,
    );
    assert(fullscan::scan_counts(p, window, orientation) =~= counts) by {
        assert forall|k: int| 0 <= k < number implies counts[k] == fullscan::scan_counts(
            p,
            window,
            orientation,
        )[k] by {
            lemma_changes(p, orientation, first + k, lo, n);
        }
    }
    lemma_changes(p, orientation, first + i, lo, n);
    lemma_sizes(p, orientation, first + i, lo, n);
}

/// The scan of a window keeps every line, before those that are nearly the same are merged: its
/// positions are those of all lines, in ascending order, for columns and rows alike.
pub proof fn a_scan_keeps_every_line(
    p: Picture,
    window: Region,
    orientation: Orientation,
    options: FullScanOptions,
    n: nat,
)
    requires
        p.width <= i32::MAX,
        p.height <= i32::MAX,
        growth::framed(window),
        n <= lines_of(window, orientation).1,
    ensures
        ({
            let first = lines_of(window, orientation).0;
            let kept = fullscan::surviving(p, window, orientation, options, n);
            &&& forall|v: i32|
                #[trigger] kept.contains(v) <==> v < first + n && is_line(
                    p,
                    window,
                    orientation,
                    options,
                    v as int,
                )
            &&& forall|j: int, k: int|
                0 <= j < k < kept.len() ==> #[trigger] kept[j] < #[trigger] kept[k]
        }),
    decreases n,
{
    let first = lines_of(window, orientation).0;
    let kept = fullscan::surviving(p, window, orientation, options, n);
    if n > 0 {
        a_scan_keeps_every_line(p, window, orientation, options, (n - 1) as nat);
        let before = fullscan::surviving(p, window, orientation, options, (n - 1) as nat);
        lemma_survives(p, window, orientation, options, n - 1);
        let here = (first + n - 1) as i32;
        assert forall|v: i32|
            #[trigger] kept.contains(v) <==> v < first + n && is_line(
                p,
                window,
                orientation,
                options,
                v as int,
            ) by {
            if kept.contains(v) {
                let k = choose|k: int| 0 <= k < kept.len() && kept[k] == v;
                if k < before.len() {
                    assert(before[k] == v);
                    assert(before.contains(v));
                }
            }
            if v < first + n && is_line(p, window, orientation, options, v as int) {
                if v == here {
                    assert(kept[kept.len() - 1] == v);
                } else {
                    assert(before.contains(v));
                    let k = choose|k: int| 0 <= k < before.len() && before[k] == v;
                    assert(kept[k] == v);
                }
            }
        }
        assert forall|j: int, k: int| 0 <= j < k < kept.len() implies #[trigger] kept[j]
            < #[trigger] kept[k] by {
            assert(before[j] == kept[j]);
            if k < before.len() {
                assert(before[k] == kept[k]);
            } else {
                assert(before.contains(before[j]));
            }
        }
    }
}

/// A scan misses no line, neither a column nor a row: every line that is one is reported, or lies at
/// most four behind one that is. What is reported is such a line, and they are more than four apart
/// in ascending order; so a line without another one up to four before it is reported itself.
pub proof fn a_scan_misses_no_line(
    p: Picture,
    window: Region,
    orientation: Orientation,
    options: FullScanOptions,
)
    requires
        p.width <= i32::MAX,
        p.height <= i32::MAX,
        growth::framed(window),
    ensures
        ({
            let found = fullscan::scanned_lines(p, window, orientation, options);
            &&& forall|v: i32|
                #[trigger] found.contains(v) ==> is_line(
                    p,
                    window,
                    orientation,
                    options,
                    v as int,
                )
            &&& forall|j: int, k: int|
                0 <= j < k < found.len() ==> #[trigger] found[k] - #[trigger] found[j] > 4
            &&& forall|line: int| #[trigger]
                is_line(p, window, orientation, options, line) ==> exists|k: int|
                    0 <= k < found.len() && #[trigger] found[k] <= line <= found[k] + 4
            &&& forall|line: int| #[trigger]
                is_line(p, window, orientation, options, line) && (forall|other: int|
                    line - 4 <= other < line ==> !#[trigger] is_line(
                        p,
                        window,
                        orientation,
                        options,
                        other,
                    )) ==> found.contains(line as i32)
        }),
{
    let (first, number, _, _) = lines_of(window, orientation);
    let kept = fullscan::surviving(p, window, orientation, options, number);
    let found = fullscan::scanned_lines(p, window, orientation, options);
    a_scan_keeps_every_line(p, window, orientation, options, number);
    lines::merging_spaces_and_covers(kept, lines::DIVIDER_MERGE_GAP as int);
    assert forall|v: i32| #[trigger] found.contains(v) implies is_line(
        p,
        window,
        orientation,
        options,
        v as int,
    ) by {
        assert(kept.contains(v));
    }
    assert forall|line: int| #[trigger]
        is_line(p, window, orientation, options, line) implies exists|k: int|
        0 <= k < found.len() && #[trigger] found[k] <= line <= found[k] + 4 by {
        let v = line as i32;
        assert(kept.contains(v));
        let k = choose|k: int|
            0 <= k < found.len() && #[trigger] found[k] <= v <= found[k]
                + lines::DIVIDER_MERGE_GAP;
        assert(found[k] <= line <= found[k] + 4);
    }
    assert forall|line: int| #[trigger]
        is_line(p, window, orientation, options, line) && (forall|other: int|
            line - 4 <= other < line ==> !#[trigger] is_line(
                p,
                window,
                orientation,
                options,
                other,
            )) implies found.contains(line as i32) by {
        let k = choose|k: int|
            0 <= k < found.len() && #[trigger] found[k] <= line <= found[k] + 4;
        assert(found.contains(found[k]));
        assert(is_line(p, window, orientation, options, found[k] as int));
    }
}

/// A region is shrunk by six pixels on every side, or by as many as leave at least one pixel of it.
pub proof fn regions_are_shrunk_evenly(r: Region)
    requires
        r.2 >= 1,
        r.3 >= 1,
        r.0 + r.2 <= i32::MAX,
        r.1 + r.3 <= i32::MAX,
    ensures
        ({
            let s = dividers::inset_spec(r);
            let by = s.0 - r.0;
            &&& 0 <= by <= 6
            &&& s.1 == r.1 + by
            &&& s.2 == r.2 - 2 * by
            &&& s.3 == r.3 - 2 * by
            &&& s.2 >= 1
            &&& s.3 >= 1
            &&& by < 6 ==> s.2 <= 2 || s.3 <= 2
        }),
{
}

/// The counts of a scan are how often the gray value changes across each line of the window.
pub proof fn scans_count_changes(p: Picture, window: Region, orientation: Orientation, i: int)
    requires
        p.width <= i32::MAX,
        p.height <= i32::MAX,
        growth::framed(window),
        0 <= i < lines_of(window, orientation).1,
    ensures
        ({
            let (first, number, lo, n) = lines_of(window, orientation);
            let counts = fullscan::scan_counts(p, window, orientation);
            &&& counts.len() == number
            &&& counts[i] == changes_on(p, orientation, first + i, lo, lo + n).len()
        }),
{
    let (first, _, lo, n) = lines_of(window, orientation);
    lemma_changes(p, orientation, first + i, lo, n);
}

/// What is measured along a line is the sizes of its changes, in their order.
pub proof fn changes_are_measured_along_a_line(
    p: Picture,
    orientation: Orientation,
    line: int,
    lo: int,
    n: nat,
)
    requires
        p.width <= i32::MAX,
        p.height <= i32::MAX,
    ensures
        fullscan::magnitudes(p, orientation, line, lo, n) == line_laws::spread_of(
            sizes_on(p, orientation, line, lo, n),
        ),
{
    lemma_sizes(p, orientation, line, lo, n);
}

} // verus!
