//! What holds of the search for boxes by growth: that nothing which fits is left out.

use vstd::prelude::*;

use crate::pieces;
use crate::sorting::Order;
use crate::vision::boxes;
use crate::vision::dividers::Region;
use crate::vision::edges::{Orientation, Picture};
use crate::vision::growth::{self, RayDirection, Segment};
use crate::vision::scan_laws;

verus! {

/// Whether the gray value changes at the `k`th step of a ray, no more than 2000 steps away and in the
/// window: across a column to the left and to the right, across a row up and down.
pub open spec fn changes_on_the_way(
    p: Picture,
    s: (i32, i32),
    dir: RayDirection,
    window: Region,
    k: int,
) -> bool {
    let (x, y) = (s.0 as int, s.1 as int);
    1 <= k <= 2000 && match dir {
        RayDirection::Left => x - k >= window.0 && scan_laws::changes_at(
            p,
            Orientation::Vertical,
            x - k,
            y,
        ),
        RayDirection::Right => x + k < window.0 + window.2 && scan_laws::changes_at(
            p,
            Orientation::Vertical,
            x + k,
            y,
        ),
        RayDirection::Up => y - k >= window.1 && scan_laws::changes_at(
            p,
            Orientation::Horizontal,
            y - k,
            x,
        ),
        RayDirection::Down => y + k < window.1 + window.3 && scan_laws::changes_at(
            p,
            Orientation::Horizontal,
            y + k,
            x,
        ),
    }
}

/// Where a ray hits something, if it does so at its `k`th step.
pub open spec fn hit_at(s: (i32, i32), dir: RayDirection, k: int) -> (int, int, Orientation) {
    match dir {
        RayDirection::Left => (s.0 - k, s.1 as int, Orientation::Vertical),
        RayDirection::Right => (s.0 + k, s.1 as int, Orientation::Vertical),
        RayDirection::Up => (s.0 as int, s.1 - k, Orientation::Horizontal),
        RayDirection::Down => (s.0 as int, s.1 + k, Orientation::Horizontal),
    }
}

/// A ray hits the nearest change on its way, and nothing if there is none.
pub proof fn rays_hit_the_nearest_change(
    p: Picture,
    s: (i32, i32),
    dir: RayDirection,
    window: Region,
)
    requires
        p.width <= i32::MAX,
        p.height <= i32::MAX,
        growth::framed(window),
    ensures
        match growth::ray_hit(p, s, dir, window) {
            Some((x, y, orientation)) => exists|k: int| #[trigger]
                changes_on_the_way(p, s, dir, window, k) && hit_at(s, dir, k) == (
                    x as int,
                    y as int,
                    orientation,
                ) && forall|j: int|
                    j < k ==> !#[trigger] changes_on_the_way(p, s, dir, window, j),
            None => forall|k: int| !#[trigger] changes_on_the_way(p, s, dir, window, k),
        },
{
    let n = growth::reach(s, dir, window);
    growth::a_ray_hits_the_nearest_edge(p, s, dir, n);
    assert forall|k: int| #[trigger] changes_on_the_way(p, s, dir, window, k) <==> 1 <= k <= n
        && growth::meets(p, s, dir, k) by {
        let (line, along) = match dir {
            RayDirection::Left => (s.0 - k, s.1 as int),
            RayDirection::Right => (s.0 + k, s.1 as int),
            RayDirection::Up => (s.1 - k, s.0 as int),
            RayDirection::Down => (s.1 + k, s.0 as int),
        };
        scan_laws::edges_are_changes(p, dir.probes(), line, along, 0, 0);
    }
    match growth::first_meeting(p, s, dir, n) {
        Some(k) => {
            assert(changes_on_the_way(p, s, dir, window, k as int));
            assert(scan_laws::between_pixels(p, dir.probes(), match dir {
                RayDirection::Left => s.0 - k,
                RayDirection::Right => s.0 + k,
                RayDirection::Up => s.1 - k,
                RayDirection::Down => s.1 + k,
            }, match dir {
                RayDirection::Left => s.1 as int,
                RayDirection::Right => s.1 as int,
                RayDirection::Up => s.0 as int,
                RayDirection::Down => s.0 as int,
            }));
        },
        None => {},
    }
}

/// Whether there is an edge at the `k`th step from `along`.
pub open spec fn edge_at_step(
    p: Picture,
    orientation: Orientation,
    fixed: int,
    along: int,
    forward: bool,
    k: int,
) -> bool {
    growth::on_line(
        p,
        orientation,
        fixed,
        if forward {
            along + k
        } else {
            along - k
        },
    )
}

proof fn lemma_trace(
    p: Picture,
    orientation: Orientation,
    fixed: int,
    along: int,
    forward: bool,
    n: nat,
)
    ensures
        ({
            let (far, gap) = growth::trace_steps(p, orientation, fixed, along, forward, n);
            let d = if forward {
                far - along
            } else {
                along - far
            };
            &&& 0 <= d <= n
            &&& 0 <= gap <= 7
            &&& d > 0 ==> edge_at_step(p, orientation, fixed, along, forward, d)
            &&& gap <= 6 ==> gap == n - d
            &&& gap == 7 ==> d + 7 <= n
            &&& forall|k: int|
                d < k <= d + 7 && k <= n ==> !#[trigger] edge_at_step(
                    p,
                    orientation,
                    fixed,
                    along,
                    forward,
                    k,
                )
            &&& forall|k: int|
                0 <= k && k + 7 <= d ==> #[trigger] edge_within(
                    p,
                    orientation,
                    fixed,
                    along,
                    forward,
                    k,
                )
        }),
    decreases n,
{
    if n > 0 {
        lemma_trace(p, orientation, fixed, along, forward, (n - 1) as nat);
        let (far, gap) = growth::trace_steps(p, orientation, fixed, along, forward, (n - 1) as nat);
        let d = if forward {
            far - along
        } else {
            along - far
        };
        if gap <= 6 && edge_at_step(p, orientation, fixed, along, forward, n as int) {
            assert forall|k: int| 0 <= k && k + 7 <= n implies #[trigger] edge_within(
                p,
                orientation,
                fixed,
                along,
                forward,
                k,
            ) by {
                if k + 7 > d {
                    if k >= d {
                        assert(edge_at_step(p, orientation, fixed, along, forward, k + 7));
                    } else {
                        assert(edge_at_step(p, orientation, fixed, along, forward, d));
                    }
                }
            }
        }
    }
}

/// Whether there is an edge at one of the seven steps after the `k`th.
pub open spec fn edge_within(
    p: Picture,
    orientation: Orientation,
    fixed: int,
    along: int,
    forward: bool,
    k: int,
) -> bool {
    exists|j: int|
        k < j <= k + 7 && #[trigger] edge_at_step(p, orientation, fixed, along, forward, j)
}

/// Whether one of seven pixels of a line, from `from` on, changes across it.
pub open spec fn changes_within_seven(
    p: Picture,
    orientation: Orientation,
    fixed: int,
    from: int,
) -> bool {
    exists|at: int|
        from <= at < from + 7 && #[trigger] scan_laws::changes_at(p, orientation, fixed, at)
}

/// A line is traced to where it ends. Between its ends, there is a change at one of any seven pixels
/// in a row; behind them, the next seven pixels have none, as far as the window goes.
pub proof fn lines_are_traced_to_their_ends(
    p: Picture,
    hit: (i32, i32),
    orientation: Orientation,
    window: Region,
)
    requires
        p.width <= i32::MAX,
        p.height <= i32::MAX,
        growth::framed(window),
        growth::in_window(hit, window),
        p.edge(hit.0 as int, hit.1 as int, orientation),
    ensures
        ({
            let s = growth::traced(p, hit, orientation, window);
            let (fixed, along, lo, hi) = match orientation {
                Orientation::Vertical => (hit.0, hit.1, window.1 as int, window.1 + window.3),
                Orientation::Horizontal => (hit.1, hit.0, window.0 as int, window.0 + window.2),
            };
            &&& s.orientation == orientation
            &&& s.fixed == fixed
            &&& lo <= s.start <= along <= s.end < hi
            &&& scan_laws::changes_at(p, orientation, fixed as int, s.start as int)
            &&& scan_laws::changes_at(p, orientation, fixed as int, s.end as int)
            &&& forall|from: int|
                s.start <= from && from + 7 <= s.end + 1 ==> #[trigger] changes_within_seven(
                    p,
                    orientation,
                    fixed as int,
                    from,
                )
            &&& forall|at: int|
                s.end < at <= s.end + 7 && at < hi ==> !#[trigger] scan_laws::changes_at(
                    p,
                    orientation,
                    fixed as int,
                    at,
                )
            &&& forall|at: int|
                s.start - 7 <= at < s.start && at >= lo ==> !#[trigger] scan_laws::changes_at(
                    p,
                    orientation,
                    fixed as int,
                    at,
                )
        }),
{
    let s = growth::traced(p, hit, orientation, window);
    let (fixed, along, lo, hi) = match orientation {
        Orientation::Vertical => (hit.0, hit.1 as int, window.1 as int, window.1 + window.3),
        Orientation::Horizontal => (hit.1, hit.0 as int, window.0 as int, window.0 + window.2),
    };
    growth::a_trace_passes_through_the_hit(p, hit, orientation, window);
    lemma_trace(p, orientation, fixed as int, along, false, growth::ahead(lo, along));
    lemma_trace(p, orientation, fixed as int, along, true, growth::ahead(along, hi - 1));
    assert forall|at: int|
        growth::on_line(p, orientation, fixed as int, at) <==> #[trigger] scan_laws::changes_at(
            p,
            orientation,
            fixed as int,
            at,
        ) by {
        scan_laws::edges_are_changes(p, orientation, fixed as int, at, 0, 0);
    }
    assert(scan_laws::changes_at(p, orientation, fixed as int, along)) by {
        scan_laws::edges_are_changes(p, orientation, fixed as int, along, 0, 0);
    }
    assert forall|from: int|
        s.start <= from && from + 7 <= s.end + 1 implies #[trigger] changes_within_seven(
        p,
        orientation,
        fixed as int,
        from,
    ) by {
        if from <= along < from + 7 {
        } else if from > along {
            let k = from - 1 - along;
            assert(edge_within(p, orientation, fixed as int, along, true, k));
            let j = choose|j: int|
                k < j <= k + 7 && #[trigger] edge_at_step(
                    p,
                    orientation,
                    fixed as int,
                    along,
                    true,
                    j,
                );
            assert(scan_laws::changes_at(p, orientation, fixed as int, along + j));
        } else {
            let k = along - (from + 7);
            assert(edge_within(p, orientation, fixed as int, along, false, k));
            let j = choose|j: int|
                k < j <= k + 7 && #[trigger] edge_at_step(
                    p,
                    orientation,
                    fixed as int,
                    along,
                    false,
                    j,
                );
            assert(scan_laws::changes_at(p, orientation, fixed as int, along - j));
        }
    }
    assert forall|at: int|
        s.end < at <= s.end + 7 && at < hi implies !#[trigger] scan_laws::changes_at(
        p,
        orientation,
        fixed as int,
        at,
    ) by {
        assert(!edge_at_step(p, orientation, fixed as int, along, true, at - along));
    }
    assert forall|at: int|
        s.start - 7 <= at < s.start && at >= lo implies !#[trigger] scan_laws::changes_at(
        p,
        orientation,
        fixed as int,
        at,
    ) by {
        assert(!edge_at_step(p, orientation, fixed as int, along, false, along - at));
    }
}

/// What a seed grows in one direction.
pub open spec fn piece_of(
    p: Picture,
    s: (i32, i32),
    dir: RayDirection,
    window: Region,
) -> Seq<Segment> {
    match growth::ray_hit(p, s, dir, window) {
        Some((x, y, orientation)) => seq![growth::traced(p, (x, y), orientation, window)],
        None => Seq::empty(),
    }
}

/// Growth follows every ray of every seed, to the left, to the right, up and down: what is found is
/// the lines through what they hit, one after the other.
pub proof fn every_ray_of_every_seed_is_followed(
    p: Picture,
    seeds: Seq<(i32, i32)>,
    window: Region,
    n: nat,
)
    requires
        n <= seeds.len(),
    ensures
        growth::grown_all(p, seeds, window, n) == Seq::new(
            n,
            |i: int|
                piece_of(p, seeds[i], RayDirection::Left, window) + piece_of(
                    p,
                    seeds[i],
                    RayDirection::Right,
                    window,
                ) + piece_of(p, seeds[i], RayDirection::Up, window) + piece_of(
                    p,
                    seeds[i],
                    RayDirection::Down,
                    window,
                ),
        ).flatten(),
    decreases n,
{
    let piece = |i: int|
        piece_of(p, seeds[i], RayDirection::Left, window) + piece_of(
            p,
            seeds[i],
            RayDirection::Right,
            window,
        ) + piece_of(p, seeds[i], RayDirection::Up, window) + piece_of(
            p,
            seeds[i],
            RayDirection::Down,
            window,
        );
    if n > 0 {
        every_ray_of_every_seed_is_followed(p, seeds, window, (n - 1) as nat);
        pieces::one_more_piece(piece, (n - 1) as nat);
    }
}

/// There is a seed for each point of a grid with 32 pixels from one to the next and 16 from the border
/// of the window, row by row. Each lies in the window, at most 16 pixels from its point in either
/// direction.
pub proof fn seeds_are_spread_over_the_window(window: Region, c: int, r: int)
    requires
        growth::framed(window),
        0 <= c,
        0 <= r,
        16 + 32 * c < window.2,
        16 + 32 * r < window.3,
    ensures
        ({
            let columns = (window.2 - 16 + 31) / 32;
            let seeds = growth::seeds(window);
            let i = r * columns + c;
            &&& 0 <= i < seeds.len()
            &&& window.0 <= seeds[i].0 < window.0 + window.2
            &&& window.1 <= seeds[i].1 < window.1 + window.3
            &&& -16 <= seeds[i].0 - (window.0 + 16 + 32 * c) <= 16
            &&& -16 <= seeds[i].1 - (window.1 + 16 + 32 * r) <= 16
        }),
{
    let columns = growth::seeds_along(window.2 as int);
    let rows = growth::seeds_along(window.3 as int);
    lemma_seed_at(window, rows, c, r);
    let (dx, dy) = (
        growth::seed_at(window, c, r).0 - (window.0 + 16 + 32 * c),
        growth::seed_at(window, c, r).1 - (window.1 + 16 + 32 * r),
    );
    assert(-16 <= dx <= 16 && -16 <= dy <= 16);
}

proof fn lemma_seed_at(window: Region, n: nat, c: int, r: int)
    requires
        0 <= r < n,
        0 <= c < growth::seeds_along(window.2 as int),
    ensures
        growth::seed_rows(window, n).len() == n * growth::seeds_along(window.2 as int),
        0 <= r * growth::seeds_along(window.2 as int) + c < growth::seed_rows(window, n).len(),
        growth::seed_rows(window, n)[r * growth::seeds_along(window.2 as int) + c]
            == growth::seed_at(window, c, r),
    decreases n,
{
    let columns = growth::seeds_along(window.2 as int);
    let before = growth::seed_rows(window, (n - 1) as nat);
    let row = growth::seed_row(window, n - 1, columns);
    assert(n * columns == (n - 1) * columns + columns) by (nonlinear_arith);
    if n == 1 {
        assert(0 * columns == 0) by (nonlinear_arith);
    }
    if r < n - 1 {
        lemma_seed_at(window, (n - 1) as nat, c, r);
    } else {
        if n > 1 {
            lemma_seed_at(window, (n - 1) as nat, c, n - 2);
        }
        assert(0 <= r * columns) by (nonlinear_arith)
            requires
                0 <= r,
                0 <= columns,
        ;
        assert(growth::seed_rows(window, n)[before.len() + c] == row[c]);
    }
}

/// A pair of segments of an orientation is reported whenever their lengths are apart by at most eight
/// per cent of the longer one, with the one on the lower line first.
pub proof fn no_pair_is_left_out(
    segments: Seq<Segment>,
    orientation: Orientation,
    i: int,
    j: int,
)
    requires
        0 <= i < j < segments.len(),
        segments[i].orientation == orientation,
        segments[j].orientation == orientation,
        segments[i].end > segments[i].start,
        segments[j].end > segments[j].start,
        ({
            let (a, b) = (
                segments[i].end - segments[i].start,
                segments[j].end - segments[j].start,
            );
            100 * (a - b) <= 8 * a && 100 * (b - a) <= 8 * b
        }),
    ensures
        growth::matched_pairs(segments, orientation).contains(
            if segments[i].fixed <= segments[j].fixed {
                (segments[i], segments[j])
            } else {
                (segments[j], segments[i])
            },
        ),
{
    let same = growth::oriented(segments, orientation);
    lemma_oriented_at(segments, orientation, i, j);
    let (a, b) = choose|a: int, b: int|
        0 <= a < b < same.len() && #[trigger] same[a] == segments[i] && #[trigger] same[b]
            == segments[j];
    lemma_partner(same, a, b, same.len());
    lemma_paired_at(same, a, same.len(), growth::ordered(same[a], same[b]));
}

proof fn lemma_oriented_at(s: Seq<Segment>, orientation: Orientation, i: int, j: int)
    requires
        0 <= i < j < s.len(),
        s[i].orientation == orientation,
        s[j].orientation == orientation,
    ensures
        exists|a: int, b: int|
            0 <= a < b < growth::oriented(s, orientation).len() && #[trigger] growth::oriented(
                s,
                orientation,
            )[a] == s[i] && #[trigger] growth::oriented(s, orientation)[b] == s[j],
    decreases s.len(),
{
    let front = s.drop_last();
    let before = growth::oriented(front, orientation);
    let all = growth::oriented(s, orientation);
    if j < front.len() {
        lemma_oriented_at(front, orientation, i, j);
        let (a, b) = choose|a: int, b: int|
            0 <= a < b < before.len() && #[trigger] before[a] == front[i] && #[trigger] before[b]
                == front[j];
        assert(all[a] == s[i] && all[b] == s[j]);
    } else {
        lemma_oriented_contains(front, orientation, i);
        let a = choose|a: int| 0 <= a < before.len() && before[a] == front[i];
        assert(all[a] == s[i] && all[all.len() - 1] == s[j]);
    }
}

proof fn lemma_oriented_contains(s: Seq<Segment>, orientation: Orientation, i: int)
    requires
        0 <= i < s.len(),
        s[i].orientation == orientation,
    ensures
        growth::oriented(s, orientation).contains(s[i]),
    decreases s.len(),
{
    let front = s.drop_last();
    let before = growth::oriented(front, orientation);
    let all = growth::oriented(s, orientation);
    if i < front.len() {
        lemma_oriented_contains(front, orientation, i);
        let a = choose|a: int| 0 <= a < before.len() && before[a] == front[i];
        assert(all[a] == s[i]);
    } else {
        assert(all[all.len() - 1] == s[i]);
    }
}

proof fn lemma_partner(same: Seq<Segment>, a: int, b: int, n: nat)
    requires
        0 <= a < b < n <= same.len(),
        growth::same_length(same[a].end - same[a].start, same[b].end - same[b].start),
    ensures
        growth::partners(same, a, n).contains(growth::ordered(same[a], same[b])),
    decreases n,
{
    let before = growth::partners(same, a, (n - 1) as nat);
    let all = growth::partners(same, a, n);
    let pair = growth::ordered(same[a], same[b]);
    if b < n - 1 {
        lemma_partner(same, a, b, (n - 1) as nat);
        let k = choose|k: int| 0 <= k < before.len() && before[k] == pair;
        assert(all[k] == pair);
    } else {
        assert(all[all.len() - 1] == pair);
    }
}

proof fn lemma_paired_at(same: Seq<Segment>, a: int, n: nat, pair: (Segment, Segment))
    requires
        0 <= a < n <= same.len(),
        growth::partners(same, a, same.len()).contains(pair),
    ensures
        growth::paired(same, n).contains(pair),
    decreases n,
{
    let before = growth::paired(same, (n - 1) as nat);
    let all = growth::paired(same, n);
    let last = growth::partners(same, n - 1, same.len());
    if a < n - 1 {
        lemma_paired_at(same, a, (n - 1) as nat, pair);
        let k = choose|k: int| 0 <= k < before.len() && before[k] == pair;
        assert(all[k] == pair);
    } else {
        let k = choose|k: int| 0 <= k < last.len() && last[k] == pair;
        assert(all[before.len() + k] == pair);
    }
}

/// Whether four segments can be the sides of a box: the vertical ones are 150 pixels apart, and over
/// 150 pixels beside each other; the horizontal ones lie within eight pixels of where that begins and
/// ends, and begin and end within eight pixels of the vertical ones.
pub open spec fn fit_together(v: (Segment, Segment), h: (Segment, Segment)) -> bool {
    let (x0, x1) = (v.0.fixed as int, v.1.fixed as int);
    let y0 = boxes::max(v.0.start as int, v.1.start as int);
    let y1 = boxes::min(v.0.end as int, v.1.end as int);
    let left = boxes::min(h.0.start as int, h.1.start as int);
    let right = boxes::max(h.0.end as int, h.1.end as int);
    &&& x1 - x0 >= 150
    &&& y1 - y0 >= 150
    &&& -8 <= h.0.fixed - y0 <= 8
    &&& -8 <= h.1.fixed - y1 <= 8
    &&& -8 <= left - x0 <= 8
    &&& -8 <= right - x1 <= 8
}

/// Whether a line of a picture near `rough` is the one that it is moved to: at most six away, with at
/// least as many changes between `lo` and `hi` as any other one that near, and more than any of these
/// behind it. If there is no such line on the picture, it stays.
pub open spec fn moved_to(
    p: Picture,
    orientation: Orientation,
    rough: int,
    lo: int,
    hi: int,
    at: int,
) -> bool {
    let size = match orientation {
        Orientation::Vertical => p.width as int,
        Orientation::Horizontal => p.height as int,
    };
    if rough + 6 <= 0 || rough - 6 >= size || size <= 1 {
        at == rough
    } else {
        &&& 0 < at < size
        &&& rough - 6 <= at <= rough + 6
        &&& forall|other: int|
            rough - 6 <= other <= rough + 6 && 0 < other < size ==> {
                let (n, m) = (
                    scan_laws::changes_on(p, orientation, at, lo, hi).len(),
                    (#[trigger] scan_laws::changes_on(p, orientation, other, lo, hi)).len(),
                );
                m <= n && (other > at ==> m < n)
            }
    }
}

proof fn lemma_best_is_last(
    p: Picture,
    orientation: Orientation,
    rough: int,
    range: (i32, i32),
    n: nat,
)
    ensures
        growth::best_position(p, orientation, rough, range, n) matches Some(b) ==> forall|at: int|
            b < at < rough - 6 + n && #[trigger] growth::inside(p, orientation, at)
                ==> growth::edges_on(p, orientation, at, range) < growth::edges_on(
                p,
                orientation,
                b,
                range,
            ),
    decreases n,
{
    if n > 0 {
        lemma_best_is_last(p, orientation, rough, range, (n - 1) as nat);
    }
}

proof fn lemma_edges_on(p: Picture, orientation: Orientation, fixed: int, range: (i32, i32))
    requires
        p.width <= i32::MAX,
        p.height <= i32::MAX,
    ensures
        growth::edges_on(p, orientation, fixed, range) == scan_laws::changes_on(
            p,
            orientation,
            fixed,
            range.0 as int,
            range.1 as int,
        ).len(),
{
    let found = scan_laws::changes_on(p, orientation, fixed, range.0 as int, range.1 as int);
    let lo = boxes::max(range.0 as int, 0);
    let hi = boxes::min(range.1 as int, growth::size_along(p, orientation));
    let test = |i: int| growth::on_line(p, orientation, fixed, lo + i);
    assert forall|i: int| #[trigger] found.contains(i) <==> lo <= i < lo + growth::ahead(lo, hi)
        && test(i - lo) by {
        scan_laws::edges_are_changes(
            p,
            orientation,
            fixed,
            i,
            range.0 as int,
            range.1 as int,
        );
        assert(lo + (i - lo) == i);
    }
    scan_laws::a_tally_is_the_size_of_a_set(test, lo, growth::ahead(lo, hi), found);
}

/// A side is moved to the line nearby with the most changes.
pub proof fn sides_are_moved_to_the_densest_line(
    p: Picture,
    orientation: Orientation,
    rough: int,
    range: (i32, i32),
)
    requires
        p.width <= i32::MAX,
        p.height <= i32::MAX,
    ensures
        moved_to(
            p,
            orientation,
            rough,
            range.0 as int,
            range.1 as int,
            growth::refined(p, orientation, rough, range),
        ),
{
    let size = growth::size_across(p, orientation);
    let at = growth::refined(p, orientation, rough, range);
    growth::lemma_best(p, orientation, rough, range, 13);
    lemma_best_is_last(p, orientation, rough, range, 13);
    if rough + 6 <= 0 || rough - 6 >= size || size <= 1 {
        if let Some(b) = growth::best_position(p, orientation, rough, range, 13) {
            assert(growth::inside(p, orientation, b));
        }
    } else {
        let near = if rough - 6 > 0 {
            rough - 6
        } else {
            1
        };
        assert(growth::inside(p, orientation, near));
        lemma_edges_on(p, orientation, at, range);
        assert forall|other: int| rough - 6 <= other <= rough + 6 && 0 < other < size implies {
            let (n, m) = (
                scan_laws::changes_on(
                    p,
                    orientation,
                    at,
                    range.0 as int,
                    range.1 as int,
                ).len(),
                (#[trigger] scan_laws::changes_on(
                    p,
                    orientation,
                    other,
                    range.0 as int,
                    range.1 as int,
                )).len(),
            );
            m <= n && (other > at ==> m < n)
        } by {
            assert(growth::inside(p, orientation, other));
            lemma_edges_on(p, orientation, other, range);
        }
    }
}

/// Four segments that fit together make a box, and no others do. Its sides are the lines that the
/// segments are moved to, the left and the right one first.
pub proof fn boxes_are_made_of_sides_that_fit(
    p: Picture,
    v: (Segment, Segment),
    h: (Segment, Segment),
)
    requires
        p.width <= i32::MAX,
        p.height <= i32::MAX,
        growth::measurable(v),
    ensures
        ({
            let y0 = boxes::max(v.0.start as int, v.1.start as int);
            let y1 = boxes::min(v.0.end as int, v.1.end as int);
            match growth::box_of(p, v, h) {
                Some(b) => {
                    &&& fit_together(v, h)
                    &&& b.2 > 0
                    &&& b.3 > 0
                    &&& moved_to(p, Orientation::Vertical, v.0.fixed as int, y0, y1, b.0 as int)
                    &&& moved_to(p, Orientation::Vertical, v.1.fixed as int, y0, y1, b.0 + b.2)
                    &&& moved_to(
                        p,
                        Orientation::Horizontal,
                        y0,
                        b.0 as int,
                        b.0 + b.2,
                        b.1 as int,
                    )
                    &&& moved_to(p, Orientation::Horizontal, y1, b.0 as int, b.0 + b.2, b.1 + b.3)
                },
                None => !fit_together(v, h),
            }
        }),
{
    let (x0, x1) = (v.0.fixed as int, v.1.fixed as int);
    let y0 = boxes::max(v.0.start as int, v.1.start as int);
    let y1 = boxes::min(v.0.end as int, v.1.end as int);
    let rx0 = growth::refined(p, Orientation::Vertical, x0, (y0 as i32, y1 as i32));
    let rx1 = growth::refined(p, Orientation::Vertical, x1, (y0 as i32, y1 as i32));
    sides_are_moved_to_the_densest_line(p, Orientation::Vertical, x0, (y0 as i32, y1 as i32));
    sides_are_moved_to_the_densest_line(p, Orientation::Vertical, x1, (y0 as i32, y1 as i32));
    sides_are_moved_to_the_densest_line(p, Orientation::Horizontal, y0, (rx0 as i32, rx1 as i32));
    sides_are_moved_to_the_densest_line(p, Orientation::Horizontal, y1, (rx0 as i32, rx1 as i32));
    growth::refining_finds_the_densest_line(p, Orientation::Vertical, x0, (y0 as i32, y1 as i32));
    growth::refining_finds_the_densest_line(p, Orientation::Vertical, x1, (y0 as i32, y1 as i32));
    growth::refining_finds_the_densest_line(
        p,
        Orientation::Horizontal,
        y0,
        (rx0 as i32, rx1 as i32),
    );
    growth::refining_finds_the_densest_line(
        p,
        Orientation::Horizontal,
        y1,
        (rx0 as i32, rx1 as i32),
    );
}

/// What a vertical and a horizontal pair make.
pub open spec fn box_or_none(p: Picture, v: (Segment, Segment), h: (Segment, Segment)) -> Seq<
    Region,
> {
    match growth::box_of(p, v, h) {
        Some(b) => seq![b],
        None => Seq::empty(),
    }
}

proof fn lemma_boxes_of(p: Picture, v: (Segment, Segment), hs: Seq<(Segment, Segment)>, n: nat)
    requires
        n <= hs.len(),
    ensures
        growth::boxes_of(p, v, hs, n) == Seq::new(n, |j: int| box_or_none(p, v, hs[j])).flatten(),
    decreases n,
{
    if n > 0 {
        lemma_boxes_of(p, v, hs, (n - 1) as nat);
        pieces::one_more_piece(|j: int| box_or_none(p, v, hs[j]), (n - 1) as nat);
        let before = growth::boxes_of(p, v, hs, (n - 1) as nat);
        assert(growth::boxes_of(p, v, hs, n) =~= before + box_or_none(p, v, hs[n - 1]));
    }
}

/// Every vertical pair is tried with every horizontal one: the boxes are those that these make, one
/// after the other.
pub proof fn every_pair_is_tried_with_every_other(
    p: Picture,
    vs: Seq<(Segment, Segment)>,
    hs: Seq<(Segment, Segment)>,
    n: nat,
)
    requires
        n <= vs.len(),
    ensures
        growth::all_boxes(p, vs, hs, n) == Seq::new(
            n,
            |i: int| Seq::new(hs.len(), |j: int| box_or_none(p, vs[i], hs[j])).flatten(),
        ).flatten(),
    decreases n,
{
    let piece = |i: int| Seq::new(hs.len(), |j: int| box_or_none(p, vs[i], hs[j])).flatten();
    if n > 0 {
        every_pair_is_tried_with_every_other(p, vs, hs, (n - 1) as nat);
        lemma_boxes_of(p, vs[n - 1], hs, hs.len());
        pieces::one_more_piece(piece, (n - 1) as nat);
    }
}

/// No box is left out: whatever a vertical and a horizontal pair make is among the boxes.
pub proof fn no_box_is_left_out(
    p: Picture,
    vs: Seq<(Segment, Segment)>,
    hs: Seq<(Segment, Segment)>,
    i: int,
    j: int,
)
    requires
        0 <= i < vs.len(),
        0 <= j < hs.len(),
        growth::box_of(p, vs[i], hs[j]) is Some,
    ensures
        growth::all_boxes(p, vs, hs, vs.len()).contains(growth::box_of(p, vs[i], hs[j])->0),
{
    let b = growth::box_of(p, vs[i], hs[j])->0;
    lemma_box_in_row(p, vs[i], hs, hs.len(), j);
    lemma_row_in_all(p, vs, hs, vs.len(), i, b);
}

proof fn lemma_box_in_row(
    p: Picture,
    v: (Segment, Segment),
    hs: Seq<(Segment, Segment)>,
    n: nat,
    j: int,
)
    requires
        0 <= j < n <= hs.len(),
        growth::box_of(p, v, hs[j]) is Some,
    ensures
        growth::boxes_of(p, v, hs, n).contains(growth::box_of(p, v, hs[j])->0),
    decreases n,
{
    let b = growth::box_of(p, v, hs[j])->0;
    let before = growth::boxes_of(p, v, hs, (n - 1) as nat);
    let all = growth::boxes_of(p, v, hs, n);
    if j < n - 1 {
        lemma_box_in_row(p, v, hs, (n - 1) as nat, j);
        let k = choose|k: int| 0 <= k < before.len() && before[k] == b;
        assert(all[k] == b);
    } else {
        assert(all[all.len() - 1] == b);
    }
}

proof fn lemma_row_in_all(
    p: Picture,
    vs: Seq<(Segment, Segment)>,
    hs: Seq<(Segment, Segment)>,
    n: nat,
    i: int,
    b: Region,
)
    requires
        0 <= i < n <= vs.len(),
        growth::boxes_of(p, vs[i], hs, hs.len()).contains(b),
    ensures
        growth::all_boxes(p, vs, hs, n).contains(b),
    decreases n,
{
    let before = growth::all_boxes(p, vs, hs, (n - 1) as nat);
    let last = growth::boxes_of(p, vs[n - 1], hs, hs.len());
    let all = growth::all_boxes(p, vs, hs, n);
    if i < n - 1 {
        lemma_row_in_all(p, vs, hs, (n - 1) as nat, i, b);
        let k = choose|k: int| 0 <= k < before.len() && before[k] == b;
        assert(all[k] == b);
    } else {
        let k = choose|k: int| 0 <= k < last.len() && last[k] == b;
        assert(all[before.len() + k] == b);
    }
}

/// Whether two segments are one line found twice: same orientation, lines up to four pixels apart, and
/// no more than four pixels between their ranges.
pub open spec fn one_line(a: Segment, b: Segment) -> bool {
    &&& a.orientation == b.orientation
    &&& -4 <= a.fixed - b.fixed <= 4
    &&& a.start <= b.end + 4
    &&& b.start <= a.end + 4
}

/// Two merged segments are not one line found twice, unless one of them holds a given segment that is
/// more than four pixels from the line of the other.
pub proof fn lines_found_twice_are_merged(s: Seq<Segment>, a: int, b: int)
    requires
        growth::all_in_order(s),
        0 <= a < b < growth::merged(s).len(),
        one_line(growth::merged(s)[a], growth::merged(s)[b]),
    ensures
        exists|i: int|
            0 <= i < s.len() && ((#[trigger] s[i]).fixed > growth::merged(s)[a].fixed + 4
                || s[i].fixed > growth::merged(s)[b].fixed + 4) && s[i].orientation
                == growth::merged(s)[a].orientation && (growth::covers(growth::merged(s)[a], s[i])
                || growth::covers(growth::merged(s)[b], s[i])),
{
    let m = growth::merged(s);
    growth::merged_segments_stay_apart(s);
    assert(growth::settled(s, m[a], m[b]));
    let i = choose|i: int|
        0 <= i < s.len() && (growth::covers(m[a], #[trigger] s[i]) && s[i].fixed > m[b].fixed
            + growth::SEGMENT_MERGE_GAP || growth::covers(m[b], s[i]) && s[i].fixed > m[a].fixed
            + growth::SEGMENT_MERGE_GAP);
    assert(s[i].orientation == m[a].orientation);
}

proof fn lemma_gathered_unchanged(s: Seq<Segment>)
    requires
        forall|i: int, j: int|
            0 <= i < j < s.len() ==> !one_line(#[trigger] s[i], #[trigger] s[j]),
    ensures
        growth::gathered(s) == s,
    decreases s.len(),
{
    if s.len() > 0 {
        let front = s.drop_last();
        assert forall|i: int, j: int| 0 <= i < j < front.len() implies !one_line(
            #[trigger] front[i],
            #[trigger] front[j],
        ) by {
            assert(!one_line(s[i], s[j]));
        }
        lemma_gathered_unchanged(front);
        assert forall|j: int| 0 <= j < front.len() implies !growth::continues(
            #[trigger] front[j],
            s.last(),
        ) by {
            assert(!one_line(s[j], s[s.len() - 1]));
        }
        assert(front.push(s.last()) =~= s);
    } else {
        assert(growth::gathered(s) =~= s);
    }
}

/// Segments of which no two are one line found twice come through merging as they are.
pub proof fn other_lines_are_left_alone(s: Seq<Segment>)
    requires
        forall|i: int, j: int|
            0 <= i < s.len() && 0 <= j < s.len() && i != j ==> !one_line(
                #[trigger] s[i],
                #[trigger] s[j],
            ),
    ensures
        growth::merged(s).to_multiset() == s.to_multiset(),
{
    let sorted = crate::sorting::stable_sorted::<Segment, growth::ByLine>(s);
    crate::sorting::sorting_orders_and_permutes::<Segment, growth::ByLine>(s);
    s.to_multiset_ensures();
    sorted.to_multiset_ensures();
    assert forall|i: int, j: int| 0 <= i < j < sorted.len() implies !one_line(
        #[trigger] sorted[i],
        #[trigger] sorted[j],
    ) by {
        let (a, b) = (sorted[i], sorted[j]);
        lemma_places(s, sorted, i, j);
        let (x, y) = choose|x: int, y: int|
            0 <= x < s.len() && 0 <= y < s.len() && x != y && #[trigger] s[x] == a && #[trigger] s[y]
                == b;
        assert(!one_line(s[x], s[y]));
    }
    lemma_gathered_unchanged(sorted);
}

proof fn lemma_places(s: Seq<Segment>, t: Seq<Segment>, i: int, j: int)
    requires
        t.to_multiset() == s.to_multiset(),
        0 <= i < j < t.len(),
    ensures
        exists|x: int, y: int|
            0 <= x < s.len() && 0 <= y < s.len() && x != y && #[trigger] s[x] == t[i] && #[trigger] s[y]
                == t[j],
{
    let (a, b) = (t[i], t[j]);
    s.to_multiset_ensures();
    t.to_multiset_ensures();
    assert(t.contains(a) && t.contains(b));
    assert(t.to_multiset().count(a) > 0 && t.to_multiset().count(b) > 0);
    assert(s.contains(a) && s.contains(b));
    let x = choose|x: int| 0 <= x < s.len() && s[x] == a;
    if a != b {
        let y = choose|y: int| 0 <= y < s.len() && s[y] == b;
        assert(s[x] == a && s[y] == b);
    } else {
        let rest = t.remove(i);
        rest.to_multiset_ensures();
        assert(rest[j - 1] == b);
        assert(rest.contains(b));
        assert(rest.to_multiset() =~= t.to_multiset().remove(a));
        let left = s.remove(x);
        left.to_multiset_ensures();
        assert(left.to_multiset() =~= s.to_multiset().remove(a));
        assert(left.to_multiset().count(b) > 0);
        assert(left.contains(b));
        let z = choose|z: int| 0 <= z < left.len() && left[z] == b;
        let y = if z < x {
            z
        } else {
            z + 1
        };
        assert(s[y] == b);
        assert(s[x] == a);
    }
}

/// Whether two lengths are apart by at most eight per cent of the longer one.
pub open spec fn alike(a: Segment, b: Segment) -> bool {
    let (m, n) = (a.end - a.start, b.end - b.start);
    m > 0 && n > 0 && 100 * (m - n) <= 8 * m && 100 * (n - m) <= 8 * n
}

/// Of the lines that growth finds in a window, any two vertical ones of about the same length and any
/// two horizontal ones of about the same length make a box that is reported, if they fit together.
pub proof fn sides_that_fit_are_reported(
    p: Picture,
    window: Region,
    a: int,
    b: int,
    c: int,
    d: int,
)
    requires
        p.width <= i32::MAX,
        p.height <= i32::MAX,
        growth::framed(window),
        window.2 >= 150,
        window.3 >= 150,
        ({
            let m = growth::merged(
                growth::grown_all(
                    p,
                    growth::seeds(window),
                    window,
                    growth::seeds(window).len(),
                ),
            );
            &&& 0 <= a < m.len()
            &&& 0 <= b < m.len()
            &&& 0 <= c < m.len()
            &&& 0 <= d < m.len()
            &&& a != b
            &&& c != d
            &&& m[a].orientation == Orientation::Vertical
            &&& m[b].orientation == Orientation::Vertical
            &&& m[c].orientation == Orientation::Horizontal
            &&& m[d].orientation == Orientation::Horizontal
            &&& m[a].fixed <= m[b].fixed
            &&& m[c].fixed < m[d].fixed
            &&& alike(m[a], m[b])
            &&& alike(m[c], m[d])
            &&& growth::measurable((m[a], m[b]))
            &&& fit_together((m[a], m[b]), (m[c], m[d]))
        }),
    ensures
        ({
            let m = growth::merged(
                growth::grown_all(
                    p,
                    growth::seeds(window),
                    window,
                    growth::seeds(window).len(),
                ),
            );
            &&& growth::box_of(p, (m[a], m[b]), (m[c], m[d])) is Some
            &&& growth::regions_by_growth(p, window).contains(
                growth::box_of(p, (m[a], m[b]), (m[c], m[d]))->0,
            )
        }),
{
    let m = growth::merged(
        growth::grown_all(p, growth::seeds(window), window, growth::seeds(window).len()),
    );
    let (v, h) = ((m[a], m[b]), (m[c], m[d]));
    let vs = growth::matched_pairs(m, Orientation::Vertical);
    let hs = growth::matched_pairs(m, Orientation::Horizontal);
    if a < b {
        no_pair_is_left_out(m, Orientation::Vertical, a, b);
    } else {
        no_pair_is_left_out(m, Orientation::Vertical, b, a);
    }
    if c < d {
        no_pair_is_left_out(m, Orientation::Horizontal, c, d);
    } else {
        no_pair_is_left_out(m, Orientation::Horizontal, d, c);
    }
    boxes_are_made_of_sides_that_fit(p, v, h);
    assert(v.0.fixed < v.1.fixed);
    let i = choose|i: int| 0 <= i < vs.len() && vs[i] == v;
    let j = choose|j: int| 0 <= j < hs.len() && hs[j] == h;
    no_box_is_left_out(p, vs, hs, i, j);
    growth::grown_regions_are_distinct_boxes(p, window);
    let found = growth::box_of(p, v, h)->0;
    assert(growth::grown_boxes(p, window).contains(found));
}

/// A window that is too small for a panel has no box.
pub proof fn growth_needs_room(p: Picture, window: Region)
    requires
        window.2 < 150 || window.3 < 150,
    ensures
        growth::regions_by_growth(p, window).len() == 0,
{
}

/// The generator mixes bits: the number after a combination of two is the combination of those after
/// each, and different numbers are followed by different ones.
pub proof fn the_generator_mixes_bits(a: u32, b: u32)
    ensures
        growth::xorshift(a ^ b) == growth::xorshift(a) ^ growth::xorshift(b),
        a != b ==> growth::xorshift(a) != growth::xorshift(b),
{
    let x = a ^ (a << 13u32);
    let y = x ^ (x >> 17u32);
    let z = y ^ (y << 5u32);
    let c = a ^ b;
    let p = b ^ (b << 13u32);
    let q = p ^ (p >> 17u32);
    let r = q ^ (q << 5u32);
    let s = c ^ (c << 13u32);
    let t = s ^ (s >> 17u32);
    let u = t ^ (t << 5u32);
    assert(u == z ^ r) by (bit_vector)
        requires
            x == a ^ (a << 13u32),
            y == x ^ (x >> 17u32),
            z == y ^ (y << 5u32),
            c == a ^ b,
            p == b ^ (b << 13u32),
            q == p ^ (p >> 17u32),
            r == q ^ (q << 5u32),
            s == c ^ (c << 13u32),
            t == s ^ (s >> 17u32),
            u == t ^ (t << 5u32),
    ;
    if a != b {
        assert(c != 0) by (bit_vector)
            requires
                c == a ^ b,
                a != b,
        ;
        growth::xorshift_keeps_off_zero(c);
        assert(z != r) by (bit_vector)
            requires
                u == z ^ r,
                u != 0,
        ;
    }
}

/// Each seed draws two numbers, one behind the other: the first moves it across and the second down,
/// each by the rest of its division by 33, less 16. Where that takes it out of the window, it stays on
/// the window's edge.
pub proof fn seeds_follow_the_generator(window: Region, c: int, r: int)
    requires
        growth::framed(window),
        0 <= c,
        0 <= r,
        16 + 32 * c < window.2,
        16 + 32 * r < window.3,
    ensures
        ({
            let i = r * ((window.2 - 16 + 31) / 32) + c;
            let start = growth::generator_start(window.0, window.1);
            let across = growth::xorshifted(start, (2 * i + 1) as nat);
            let x = window.0 + 16 + 32 * c + (across as int % 33 - 16);
            let y = window.1 + 16 + 32 * r + (growth::xorshift(across) as int % 33 - 16);
            let seed = growth::seeds(window)[i];
            &&& window.0 <= x < window.0 + window.2 ==> seed.0 == x
            &&& window.1 <= y < window.1 + window.3 ==> seed.1 == y
            &&& x < window.0 ==> seed.0 == window.0
            &&& y < window.1 ==> seed.1 == window.1
            &&& x >= window.0 + window.2 ==> seed.0 == window.0 + window.2 - 1
            &&& y >= window.1 + window.3 ==> seed.1 == window.1 + window.3 - 1
        }),
{
    let rows = growth::seeds_along(window.3 as int);
    lemma_seed_at(window, rows, c, r);
}

/// The boxes come from left to right, those with the same left side from top to bottom, and those with
/// the same corner by their width and then by their height.
pub proof fn boxes_come_from_left_to_right(p: Picture, window: Region, i: int, j: int)
    requires
        growth::framed(window),
        0 <= i < j < growth::regions_by_growth(p, window).len(),
    ensures
        ({
            let (a, b) = (
                growth::regions_by_growth(p, window)[i],
                growth::regions_by_growth(p, window)[j],
            );
            ||| a.0 < b.0
            ||| a.0 == b.0 && a.1 < b.1
            ||| a.0 == b.0 && a.1 == b.1 && a.2 < b.2
            ||| a.0 == b.0 && a.1 == b.1 && a.2 == b.2 && a.3 < b.3
        }),
{
    growth::grown_regions_are_distinct_boxes(p, window);
    let (a, b) = (
        growth::regions_by_growth(p, window)[i],
        growth::regions_by_growth(p, window)[j],
    );
    assert(boxes::ByCorner::key(a) < boxes::ByCorner::key(b));
    assert(growth::extends(a) && growth::extends(b));
}

/// The pair of two segments, the one on the lower line first, if they are about the same length.
pub open spec fn pair_or_none(a: Segment, b: Segment) -> Seq<(Segment, Segment)> {
    if alike(a, b) {
        if a.fixed <= b.fixed {
            seq![(a, b)]
        } else {
            seq![(b, a)]
        }
    } else {
        Seq::empty()
    }
}

proof fn lemma_oriented_filter(s: Seq<Segment>, orientation: Orientation)
    ensures
        growth::oriented(s, orientation) == s.filter(|t: Segment| t.orientation == orientation),
    decreases s.len(),
{
    reveal(Seq::filter);
    if s.len() > 0 {
        lemma_oriented_filter(s.drop_last(), orientation);
    } else {
        assert(growth::oriented(s, orientation) =~= s);
    }
}

proof fn lemma_partners_of(same: Seq<Segment>, i: int, n: nat)
    requires
        0 <= i < n <= same.len(),
    ensures
        growth::partners(same, i, n) == Seq::new(
            (n - i - 1) as nat,
            |d: int| pair_or_none(same[i], same[i + 1 + d]),
        ).flatten(),
    decreases n,
{
    let piece = |d: int| pair_or_none(same[i], same[i + 1 + d]);
    if n > i + 1 {
        lemma_partners_of(same, i, (n - 1) as nat);
        pieces::one_more_piece(piece, (n - i - 2) as nat);
        let before = growth::partners(same, i, (n - 1) as nat);
        assert(growth::partners(same, i, n) =~= before + pair_or_none(same[i], same[n - 1]));
    } else {
        assert(Seq::new(0, piece).flatten() =~= Seq::empty());
    }
}

/// Of the segments of an orientation, each is tried once with each of those behind it, and those of
/// about the same length are pairs, one after the other.
pub proof fn every_two_segments_are_tried(segments: Seq<Segment>, orientation: Orientation)
    ensures
        ({
            let same = segments.filter(|t: Segment| t.orientation == orientation);
            growth::matched_pairs(segments, orientation) == Seq::new(
                same.len(),
                |i: int|
                    Seq::new(
                        (same.len() - i - 1) as nat,
                        |d: int| pair_or_none(same[i], same[i + 1 + d]),
                    ).flatten(),
            ).flatten()
        }),
{
    let same = segments.filter(|t: Segment| t.orientation == orientation);
    lemma_oriented_filter(segments, orientation);
    lemma_paired_with(same, same.len());
}

proof fn lemma_paired_with(same: Seq<Segment>, n: nat)
    requires
        n <= same.len(),
    ensures
        growth::paired(same, n) == Seq::new(
            n,
            |i: int|
                Seq::new(
                    (same.len() - i - 1) as nat,
                    |d: int| pair_or_none(same[i], same[i + 1 + d]),
                ).flatten(),
        ).flatten(),
    decreases n,
{
    let piece = |i: int|
        Seq::new(
            (same.len() - i - 1) as nat,
            |d: int| pair_or_none(same[i], same[i + 1 + d]),
        ).flatten();
    if n > 0 {
        lemma_paired_with(same, (n - 1) as nat);
        lemma_partners_of(same, n - 1, same.len());
        pieces::one_more_piece(piece, (n - 1) as nat);
    }
}

} // verus!
