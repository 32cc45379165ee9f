//! How far the lines and boxes that are grown from seeds can reach.

use vstd::prelude::*;

use crate::sorting;
use crate::vision::boxes;
use crate::vision::dividers::Region;
use crate::vision::edges::{Orientation, Picture};
use crate::vision::growth::{self, ByLine, RayDirection, Segment, REFINE_MARGIN};

verus! {

/// Whether a segment lies in a window and has its ends in order.
pub open spec fn within(s: Segment, window: Region) -> bool {
    &&& s.start <= s.end
    &&& match s.orientation {
        Orientation::Vertical => growth::in_window((s.fixed, s.start), window)
            && growth::in_window((s.fixed, s.end), window),
        Orientation::Horizontal => growth::in_window((s.start, s.fixed), window)
            && growth::in_window((s.end, s.fixed), window),
    }
}

/// Whether all segments lie in a window.
pub open spec fn all_within(s: Seq<Segment>, window: Region) -> bool {
    forall|i: int| 0 <= i < s.len() ==> within(#[trigger] s[i], window)
}

/// Whether a box lies in a window, or about its border: no more than [`REFINE_MARGIN`] outside.
pub open spec fn about(b: Region, window: Region) -> bool {
    &&& 0 < b.2
    &&& 0 < b.3
    &&& window.0 - REFINE_MARGIN <= b.0
    &&& b.0 + b.2 < window.0 + window.2 + REFINE_MARGIN
    &&& window.1 - REFINE_MARGIN <= b.1
    &&& b.1 + b.3 < window.1 + window.3 + REFINE_MARGIN
}

/// What a ray from a point in a window hits lies in the window.
pub proof fn hits_lie_in_the_window(p: Picture, s: (i32, i32), dir: RayDirection, window: Region)
    requires
        growth::framed(window),
        growth::in_window(s, window),
    ensures
        growth::ray_hit(p, s, dir, window) matches Some((x, y, orientation)) ==> {
            &&& growth::in_window((x, y), window)
            &&& x == s.0 || y == s.1
            &&& p.edge(x as int, y as int, orientation)
        },
{
    growth::a_ray_hits_the_nearest_edge(p, s, dir, growth::reach(s, dir, window));
}

proof fn lemma_grown_within(p: Picture, s: (i32, i32), dir: RayDirection, window: Region)
    requires
        growth::framed(window),
        growth::in_window(s, window),
    ensures
        all_within(growth::grown(p, s, dir, window), window),
{
    hits_lie_in_the_window(p, s, dir, window);
    if let Some((x, y, orientation)) = growth::ray_hit(p, s, dir, window) {
        growth::a_trace_passes_through_the_hit(p, (x, y), orientation, window);
    }
}

proof fn lemma_within_concat(a: Seq<Segment>, b: Seq<Segment>, window: Region)
    requires
        all_within(a, window),
        all_within(b, window),
    ensures
        all_within(a + b, window),
{
    assert forall|i: int| 0 <= i < (a + b).len() implies within(#[trigger] (a + b)[i], window) by {
        if i < a.len() {
            assert((a + b)[i] == a[i]);
        } else {
            assert((a + b)[i] == b[i - a.len()]);
        }
    }
}

proof fn lemma_grown_from_within(p: Picture, s: (i32, i32), window: Region)
    requires
        growth::framed(window),
        growth::in_window(s, window),
    ensures
        all_within(growth::grown_from(p, s, window), window),
{
    lemma_grown_within(p, s, RayDirection::Left, window);
    lemma_grown_within(p, s, RayDirection::Right, window);
    lemma_grown_within(p, s, RayDirection::Up, window);
    lemma_grown_within(p, s, RayDirection::Down, window);
    let left = growth::grown(p, s, RayDirection::Left, window);
    let right = growth::grown(p, s, RayDirection::Right, window);
    let up = growth::grown(p, s, RayDirection::Up, window);
    let down = growth::grown(p, s, RayDirection::Down, window);
    lemma_within_concat(left, right, window);
    lemma_within_concat(left + right, up, window);
    lemma_within_concat(left + right + up, down, window);
}

/// The lines that are grown from seeds in a window lie in the window.
pub proof fn grown_lines_lie_in_the_window(
    p: Picture,
    seeds: Seq<(i32, i32)>,
    window: Region,
    n: nat,
)
    requires
        growth::framed(window),
        n <= seeds.len(),
        forall|i: int| 0 <= i < seeds.len() ==> growth::in_window(#[trigger] seeds[i], window),
    ensures
        all_within(growth::grown_all(p, seeds, window, n), window),
    decreases n,
{
    if n > 0 {
        grown_lines_lie_in_the_window(p, seeds, window, (n - 1) as nat);
        assert(growth::in_window(seeds[n - 1], window));
        lemma_grown_from_within(p, seeds[n - 1], window);
        lemma_within_concat(
            growth::grown_all(p, seeds, window, (n - 1) as nat),
            growth::grown_from(p, seeds[n - 1], window),
            window,
        );
    }
}

proof fn lemma_pooled_within(m: Seq<Segment>, next: Segment, window: Region)
    requires
        all_within(m, window),
        within(next, window),
    ensures
        within(growth::pooled(m, next), window),
    decreases m.len(),
{
    if m.len() > 0 {
        let front = m.drop_last();
        assert forall|i: int| 0 <= i < front.len() implies within(#[trigger] front[i], window) by {
            assert(within(m[i], window));
        }
        lemma_pooled_within(front, next, window);
        growth::lemma_pooled(front, next);
        assert(within(m[m.len() - 1], window));
    }
}

proof fn lemma_gathered_within(s: Seq<Segment>, window: Region)
    requires
        all_within(s, window),
    ensures
        all_within(growth::gathered(s), window),
    decreases s.len(),
{
    if s.len() > 0 {
        let front = s.drop_last();
        let m = growth::gathered(front);
        let all = growth::gathered(s);
        let pool = growth::pooled(m, s.last());
        assert forall|i: int| 0 <= i < front.len() implies within(#[trigger] front[i], window) by {
            assert(within(s[i], window));
        }
        lemma_gathered_within(front, window);
        assert(within(s[s.len() - 1], window));
        lemma_pooled_within(m, s.last(), window);
        growth::lemma_replaced(m, s.last(), pool);
        assert forall|k: int| 0 <= k < all.len() implies within(#[trigger] all[k], window) by {
            if growth::continues_one(m, s.last()) {
                if all[k] != pool {
                    let j = choose|j: int| 0 <= j < m.len() && #[trigger] m[j] == all[k];
                    assert(within(m[j], window));
                }
            } else if k < m.len() {
                assert(within(m[k], window));
            }
        }
    }
}

/// Merging lines of a window leaves them in the window.
pub proof fn merged_lines_lie_in_the_window(s: Seq<Segment>, window: Region)
    requires
        all_within(s, window),
    ensures
        all_within(growth::merged(s), window),
{
    let sorted = sorting::stable_sorted::<Segment, ByLine>(s);
    sorting::sorting_orders_and_permutes::<Segment, ByLine>(s);
    assert forall|i: int| 0 <= i < sorted.len() implies within(#[trigger] sorted[i], window) by {
        s.to_multiset_ensures();
        sorted.to_multiset_ensures();
        assert(sorted.contains(sorted[i]));
        assert(sorted.to_multiset().count(sorted[i]) == s.to_multiset().count(sorted[i]));
        assert(s.contains(sorted[i]));
        let k = choose|k: int| 0 <= k < s.len() && s[k] == sorted[i];
        assert(within(s[k], window));
    }
    lemma_gathered_within(sorted, window);
}

/// Whether both segments of each pair lie in a window.
pub open spec fn pairs_within(pairs: Seq<(Segment, Segment)>, window: Region) -> bool {
    forall|i: int|
        0 <= i < pairs.len() ==> within((#[trigger] pairs[i]).0, window) && within(
            pairs[i].1,
            window,
        )
}

/// Pairs of lines of a window lie in the window.
pub proof fn pairs_lie_in_the_window(s: Seq<Segment>, orientation: Orientation, window: Region)
    requires
        all_within(s, window),
    ensures
        pairs_within(growth::matched_pairs(s, orientation), window),
{
    let pairs = growth::matched_pairs(s, orientation);
    growth::pairs_are_opposite_sides(s, orientation);
    assert forall|i: int| 0 <= i < pairs.len() implies within((#[trigger] pairs[i]).0, window)
        && within(pairs[i].1, window) by {
        let a = choose|a: int| 0 <= a < s.len() && s[a] == pairs[i].0;
        let b = choose|b: int| 0 <= b < s.len() && s[b] == pairs[i].1;
        assert(within(s[a], window) && within(s[b], window));
    }
}

proof fn lemma_refined(p: Picture, orientation: Orientation, rough: int, range: (i32, i32))
    requires
        0 <= rough <= i32::MAX,
    ensures
        0 <= growth::refined(p, orientation, rough, range) <= i32::MAX,
        rough - REFINE_MARGIN <= growth::refined(p, orientation, rough, range) <= rough
            + REFINE_MARGIN,
{
    growth::lemma_best(p, orientation, rough, range, (2 * REFINE_MARGIN + 1) as nat);
}

proof fn lemma_box_about(
    p: Picture,
    v: (Segment, Segment),
    h: (Segment, Segment),
    window: Region,
)
    requires
        growth::framed(window),
        0 <= window.0,
        0 <= window.1,
        within(v.0, window),
        within(v.1, window),
        growth::opposite(v, Orientation::Vertical),
    ensures
        growth::box_of(p, v, h) matches Some(b) ==> about(b, window),
{
    let y0 = boxes::max(v.0.start as int, v.1.start as int);
    let y1 = boxes::min(v.0.end as int, v.1.end as int);
    let range = (y0 as i32, y1 as i32);
    lemma_refined(p, Orientation::Vertical, v.0.fixed as int, range);
    lemma_refined(p, Orientation::Vertical, v.1.fixed as int, range);
    let rx0 = growth::refined(p, Orientation::Vertical, v.0.fixed as int, range);
    let rx1 = growth::refined(p, Orientation::Vertical, v.1.fixed as int, range);
    lemma_refined(p, Orientation::Horizontal, y0, (rx0 as i32, rx1 as i32));
    lemma_refined(p, Orientation::Horizontal, y1, (rx0 as i32, rx1 as i32));
}

/// Whether all boxes lie in a window or about its border.
pub open spec fn all_about(s: Seq<Region>, window: Region) -> bool {
    forall|i: int| 0 <= i < s.len() ==> about(#[trigger] s[i], window)
}

proof fn lemma_boxes_about(
    p: Picture,
    v: (Segment, Segment),
    hs: Seq<(Segment, Segment)>,
    n: nat,
    window: Region,
)
    requires
        growth::framed(window),
        0 <= window.0,
        0 <= window.1,
        within(v.0, window),
        within(v.1, window),
        growth::opposite(v, Orientation::Vertical),
    ensures
        all_about(growth::boxes_of(p, v, hs, n), window),
    decreases n,
{
    if n > 0 {
        lemma_boxes_about(p, v, hs, (n - 1) as nat, window);
        lemma_box_about(p, v, hs[n - 1], window);
    }
}

proof fn lemma_about_concat(a: Seq<Region>, b: Seq<Region>, window: Region)
    requires
        all_about(a, window),
        all_about(b, window),
    ensures
        all_about(a + b, window),
{
    assert forall|i: int| 0 <= i < (a + b).len() implies about(#[trigger] (a + b)[i], window) by {
        if i < a.len() {
            assert((a + b)[i] == a[i]);
        } else {
            assert((a + b)[i] == b[i - a.len()]);
        }
    }
}

/// Boxes that are made of lines of a window lie in the window, or no more than [`REFINE_MARGIN`]
/// outside.
pub proof fn boxes_lie_about_the_window(
    p: Picture,
    vs: Seq<(Segment, Segment)>,
    hs: Seq<(Segment, Segment)>,
    n: nat,
    window: Region,
)
    requires
        growth::framed(window),
        0 <= window.0,
        0 <= window.1,
        n <= vs.len(),
        pairs_within(vs, window),
        forall|i: int|
            0 <= i < vs.len() ==> growth::opposite(#[trigger] vs[i], Orientation::Vertical),
    ensures
        all_about(growth::all_boxes(p, vs, hs, n), window),
    decreases n,
{
    if n > 0 {
        boxes_lie_about_the_window(p, vs, hs, (n - 1) as nat, window);
        assert(within(vs[n - 1].0, window) && within(vs[n - 1].1, window));
        assert(growth::opposite(vs[n - 1], Orientation::Vertical));
        lemma_boxes_about(p, vs[n - 1], hs, hs.len(), window);
        lemma_about_concat(
            growth::all_boxes(p, vs, hs, (n - 1) as nat),
            growth::boxes_of(p, vs[n - 1], hs, hs.len()),
            window,
        );
    }
}

} // verus!
