//! Measures of candidate boxes: overlap, how well an outline fills its bounds, how busy the inside
//! is.

use vstd::prelude::*;

use crate::sorting::Order;
use crate::vision::dividers::Region;
use crate::vision::edges;

verus! {

/// Two boxes whose intersection makes up more than this percentage of their union are the same
/// detection. A small box inside a much larger one is not: the union is mostly outside of it.
pub const DEDUP_IOU_PERCENT: u32 = 70;

/// An outline of a panel fills at least this percentage of its bounding box. Rounded corners take
/// off a sliver only.
pub const MIN_RECTANGULARITY_PERCENT: u32 = 85;

/// A standard deviation of gray values above this marks the inside of a box as busy: a picture or a
/// minimap, and not a control.
pub const MAX_STD_DEV: u8 = 45;

/// A quotient.
#[derive(Debug, Clone, Copy)]
pub struct Ratio {
    pub num: i128,
    pub den: i128,
}

impl Ratio {
    /// The denominator is positive, and percentages can be taken.
    pub open spec fn wf(self) -> bool {
        &&& 0 < self.den <= 0x1_0000_0000_0000_0000
        &&& -0x1_0000_0000_0000_0000 <= self.num <= 0x1_0000_0000_0000_0000
    }

    /// Whether the quotient is greater than `percent` per cent.
    pub open spec fn above(self, percent: int) -> bool {
        self.num * 100 > percent * self.den
    }

    /// Whether the quotient is less than `percent` per cent.
    pub open spec fn below(self, percent: int) -> bool {
        self.num * 100 < percent * self.den
    }

    /// Whether the quotient is greater than `percent` per cent.
    pub fn exceeds(&self, percent: u32) -> (r: bool)
        requires
            self.wf(),
        ensures
            r == self.above(percent as int),
    {
        proof {
            lemma_percent(*self, percent);
        }
        self.num * 100 > percent as i128 * self.den
    }

    /// Whether the quotient is less than `percent` per cent.
    pub fn falls_short_of(&self, percent: u32) -> (r: bool)
        requires
            self.wf(),
        ensures
            r == self.below(percent as int),
    {
        proof {
            lemma_percent(*self, percent);
        }
        self.num * 100 < percent as i128 * self.den
    }
}

proof fn lemma_percent(q: Ratio, percent: u32)
    requires
        q.wf(),
    ensures
        0 <= percent * q.den <= 0xffff_ffff * 0x1_0000_0000_0000_0000,
{
    assert(0 <= percent * q.den <= 0xffff_ffff * 0x1_0000_0000_0000_0000) by (nonlinear_arith)
        requires
            0 <= percent <= 0xffff_ffff,
            0 < q.den <= 0x1_0000_0000_0000_0000,
    ;
}

pub open spec fn max(a: int, b: int) -> int {
    if a >= b {
        a
    } else {
        b
    }
}

pub open spec fn min(a: int, b: int) -> int {
    if a <= b {
        a
    } else {
        b
    }
}

/// Length of the common part of two intervals.
pub open spec fn common(a: int, a_len: int, b: int, b_len: int) -> int {
    max(min(a + a_len, b + b_len) - max(a, b), 0)
}

pub open spec fn area(r: Region) -> int {
    r.2 * r.3
}

/// Area of the intersection of two boxes.
pub open spec fn intersection(a: Region, b: Region) -> int {
    common(a.0 as int, a.2 as int, b.0 as int, b.2 as int) * common(
        a.1 as int,
        a.3 as int,
        b.1 as int,
        b.3 as int,
    )
}

/// Area of the union of two boxes.
pub open spec fn union(a: Region, b: Region) -> int {
    area(a) + area(b) - intersection(a, b)
}

/// Whether two boxes are the same detection.
pub open spec fn same_detection(a: Region, b: Region) -> bool {
    union(a, b) > 0 && intersection(a, b) * 100 > DEDUP_IOU_PERCENT * union(a, b)
}

fn common_of(a: i32, a_len: i32, b: i32, b_len: i32) -> (r: i64)
    ensures
        r == common(a as int, a_len as int, b as int, b_len as int),
        0 <= r <= i32::MAX,
{
    let a_end: i64 = a as i64 + a_len as i64;
    let b_end: i64 = b as i64 + b_len as i64;
    let end: i64 = if a_end <= b_end {
        a_end
    } else {
        b_end
    };
    let start: i64 = if a >= b {
        a as i64
    } else {
        b as i64
    };
    if end - start > 0 {
        end - start
    } else {
        0
    }
}

/// Intersection over union; nothing over one where the union is empty.
pub fn iou(a: Region, b: Region) -> (q: Ratio)
    ensures
        q.wf(),
        q.num == if union(a, b) > 0 {
            intersection(a, b)
        } else {
            0
        },
        q.den == if union(a, b) > 0 {
            union(a, b)
        } else {
            1
        },
        q.above(DEDUP_IOU_PERCENT as int) == same_detection(a, b),
{
    let iw: i64 = common_of(a.0, a.2, b.0, b.2);
    let ih: i64 = common_of(a.1, a.3, b.1, b.3);
    proof {
        lemma_product(iw as int, ih as int);
        lemma_product(a.2 as int, a.3 as int);
        lemma_product(b.2 as int, b.3 as int);
        assert(iw * ih >= 0) by (nonlinear_arith)
            requires
                iw >= 0,
                ih >= 0,
        ;
    }
    let both: i128 = iw as i128 * ih as i128;
    let all: i128 = a.2 as i128 * a.3 as i128 + b.2 as i128 * b.3 as i128 - both;
    if all <= 0 {
        Ratio { num: 0, den: 1 }
    } else {
        Ratio { num: both, den: all }
    }
}

pub(crate) proof fn lemma_product(a: int, b: int)
    requires
        -0x8000_0000 <= a <= 0x8000_0000,
        -0x8000_0000 <= b <= 0x8000_0000,
    ensures
        -0x4000_0000_0000_0000 <= a * b <= 0x4000_0000_0000_0000,
{
    assert(-0x4000_0000_0000_0000 <= a * b <= 0x4000_0000_0000_0000) by (nonlinear_arith)
        requires
            -0x8000_0000 <= a <= 0x8000_0000,
            -0x8000_0000 <= b <= 0x8000_0000,
    ;
}

/// Intersection over union does not depend on the order of the boxes.
pub proof fn iou_is_symmetric(a: Region, b: Region)
    ensures
        intersection(a, b) == intersection(b, a),
        union(a, b) == union(b, a),
        same_detection(a, b) == same_detection(b, a),
{
}

/// A box inside another one overlaps it by the quotient of the areas: a box that is not nearly as
/// large as the one around it is a detection of its own.
pub proof fn nested_boxes_overlap_by_area(outer: Region, inner: Region)
    requires
        inner.2 >= 0,
        inner.3 >= 0,
        outer.0 <= inner.0,
        outer.1 <= inner.1,
        inner.0 + inner.2 <= outer.0 + outer.2,
        inner.1 + inner.3 <= outer.1 + outer.3,
    ensures
        intersection(outer, inner) == area(inner),
        union(outer, inner) == area(outer),
        same_detection(outer, inner) <==> area(outer) > 0 && area(inner) * 100 > DEDUP_IOU_PERCENT
            * area(outer),
{
    assert(common(outer.0 as int, outer.2 as int, inner.0 as int, inner.2 as int) == inner.2);
    assert(common(outer.1 as int, outer.3 as int, inner.1 as int, inner.3 as int) == inner.3);
}

/// Boxes from the largest to the smallest.
pub struct ByAreaDescending;

impl Order<Region> for ByAreaDescending {
    open spec fn key(t: Region) -> int {
        -area(t)
    }

    fn at_most(a: &Region, b: &Region) -> (r: bool) {
        proof {
            lemma_product(a.2 as int, a.3 as int);
            lemma_product(b.2 as int, b.3 as int);
        }
        a.2 as i64 * a.3 as i64 >= b.2 as i64 * b.3 as i64
    }
}

/// Boxes by left, top, width and height.
pub struct ByCorner;

impl Order<Region> for ByCorner {
    open spec fn key(t: Region) -> int {
        ((t.0 * 0x1_0000_0000 + t.1) * 0x1_0000_0000 + t.2) * 0x1_0000_0000 + t.3
    }

    fn at_most(a: &Region, b: &Region) -> (r: bool) {
        if a.0 != b.0 {
            a.0 < b.0
        } else if a.1 != b.1 {
            a.1 < b.1
        } else if a.2 != b.2 {
            a.2 < b.2
        } else {
            a.3 <= b.3
        }
    }
}

/// Whether `b` is the same detection as one of `kept`.
pub open spec fn detected(kept: Seq<Region>, b: Region) -> bool {
    exists|i: int| 0 <= i < kept.len() && same_detection(b, #[trigger] kept[i])
}

/// The boxes that are not the same detection as an earlier one that was kept.
pub open spec fn distinct(s: Seq<Region>) -> Seq<Region>
    decreases s.len(),
{
    if s.len() == 0 {
        Seq::empty()
    } else {
        let kept = distinct(s.drop_last());
        if detected(kept, s.last()) {
            kept
        } else {
            kept.push(s.last())
        }
    }
}

/// Drops each box that is the same detection as an earlier one.
pub fn keep_distinct(boxes: &Vec<Region>) -> (kept: Vec<Region>)
    ensures
        kept@ == distinct(boxes@),
{
    let mut kept: Vec<Region> = Vec::new();
    let mut i: usize = 0;
    while i < boxes.len()
        invariant
            i <= boxes@.len(),
            kept@ == distinct(boxes@.take(i as int)),
        decreases boxes.len() - i,
    {
        let b: Region = boxes[i];
        let mut found: bool = false;
        let mut k: usize = 0;
        while k < kept.len() && !found
            invariant
                k <= kept@.len(),
                found ==> detected(kept@, b),
                !found ==> forall|j: int| 0 <= j < k ==> !same_detection(b, #[trigger] kept@[j]),
            decreases kept.len() - k + if found {
                0int
            } else {
                1int
            },
        {
            if iou(b, kept[k]).exceeds(DEDUP_IOU_PERCENT) {
                assert(same_detection(b, kept@[k as int]));
                found = true;
            } else {
                k = k + 1;
            }
        }
        proof {
            assert(boxes@.take(i + 1).drop_last() =~= boxes@.take(i as int));
        }
        if !found {
            kept.push(b);
        }
        i = i + 1;
    }
    assert(boxes@.take(i as int) =~= boxes@);
    kept
}

/// No two kept boxes are the same detection, and each given box is kept or is the same detection as
/// a kept one.
pub proof fn distinct_boxes_represent_all(s: Seq<Region>)
    ensures
        forall|i: int, j: int|
            0 <= i < j < distinct(s).len() ==> !same_detection(
                #[trigger] distinct(s)[j],
                #[trigger] distinct(s)[i],
            ),
        forall|b: Region| #[trigger] distinct(s).contains(b) ==> s.contains(b),
        forall|b: Region|
            #[trigger] s.contains(b) ==> distinct(s).contains(b) || detected(distinct(s), b),
    decreases s.len(),
{
    if s.len() > 0 {
        let front = s.drop_last();
        let last = s.last();
        let kept = distinct(front);
        let all = distinct(s);
        distinct_boxes_represent_all(front);
        assert(s =~= front.push(last));
        assert forall|i: int, j: int| 0 <= i < j < all.len() implies !same_detection(
            #[trigger] all[j],
            #[trigger] all[i],
        ) by {
            if j < kept.len() {
                assert(kept[j] == all[j] && kept[i] == all[i]);
            } else {
                assert(kept[i] == all[i]);
            }
        }
        assert forall|b: Region| #[trigger] all.contains(b) implies s.contains(b) by {
            let i = choose|i: int| 0 <= i < all.len() && all[i] == b;
            if i < kept.len() {
                assert(kept[i] == b);
                assert(kept.contains(b));
                let k = choose|k: int| 0 <= k < front.len() && front[k] == b;
                assert(s[k] == b);
            } else {
                assert(s[s.len() - 1] == b);
            }
        }
        assert forall|b: Region| #[trigger] s.contains(b) implies all.contains(b) || detected(
            all,
            b,
        ) by {
            let k = choose|k: int| 0 <= k < s.len() && s[k] == b;
            if k < front.len() {
                assert(front[k] == b);
                assert(front.contains(b));
                if kept.contains(b) {
                    let i = choose|i: int| 0 <= i < kept.len() && kept[i] == b;
                    assert(all[i] == b);
                } else {
                    let i = choose|i: int|
                        0 <= i < kept.len() && same_detection(b, #[trigger] kept[i]);
                    assert(same_detection(b, all[i]));
                }
            } else if detected(kept, last) {
                let i = choose|i: int| 0 <= i < kept.len() && same_detection(b, #[trigger] kept[i]);
                assert(same_detection(b, all[i]));
            } else {
                assert(all[all.len() - 1] == b);
            }
        }
    }
}

/// The product that one side contributes to the area of a polygon.
pub open spec fn cross(p: (i32, i32), q: (i32, i32)) -> int {
    p.0 * q.1 - q.0 * p.1
}

/// The cross products of the first `n` sides of a closed polygon.
pub open spec fn shoelace(points: Seq<(i32, i32)>, n: nat) -> int
    decreases n,
{
    if n == 0 {
        0
    } else {
        shoelace(points, (n - 1) as nat) + cross(points[n - 1], points[n as int % points.len() as int])
    }
}

/// Twice the area that a closed polygon encloses; nothing with less than three corners.
pub open spec fn doubled_area(points: Seq<(i32, i32)>) -> int {
    if points.len() < 3 {
        0
    } else if shoelace(points, points.len()) >= 0 {
        shoelace(points, points.len())
    } else {
        -shoelace(points, points.len())
    }
}

/// Twice the area that a closed polygon encloses, by the shoelace formula.
pub fn doubled_polygon_area(points: &[(i32, i32)]) -> (a: u128)
    ensures
        a == doubled_area(points@),
{
    let n: usize = points.len();
    if n < 3 {
        return 0;
    }
    let mut sum: i128 = 0;
    let mut i: usize = 0;
    while i < n
        invariant
            i <= n,
            n == points@.len(),
            n >= 3,
            sum == shoelace(points@, i as nat),
            -0x8000_0000_0000_0000 * i <= sum <= 0x8000_0000_0000_0000 * i,
        decreases n - i,
    {
        let p: (i32, i32) = points[i];
        let next: usize = if i + 1 < n {
            i + 1
        } else {
            0
        };
        let q: (i32, i32) = points[next];
        proof {
            lemma_product(p.0 as int, q.1 as int);
            lemma_product(q.0 as int, p.1 as int);
            if i + 1 < n {
                vstd::arithmetic::div_mod::lemma_small_mod((i + 1) as nat, n as nat);
            } else {
                vstd::arithmetic::div_mod::lemma_mod_self_0(n as int);
            }
            assert(points@[next as int] == points@[(i + 1) % (points@.len() as int)]);
        }
        sum = sum + (p.0 as i128 * q.1 as i128 - q.0 as i128 * p.1 as i128);
        i = i + 1;
    }
    if sum >= 0 {
        sum as u128
    } else {
        (-sum) as u128
    }
}

/// How much of `bbox` the polygon through `points` fills, at most all of it; nothing if the box is
/// empty.
pub fn rectangularity(points: &[(i32, i32)], bbox: Region) -> (q: Ratio)
    ensures
        q.wf(),
        q.den == if area(bbox) > 0 {
            2 * area(bbox)
        } else {
            1
        },
        q.num == if area(bbox) > 0 {
            min(doubled_area(points@), 2 * area(bbox))
        } else {
            0
        },
{
    proof {
        lemma_product(bbox.2 as int, bbox.3 as int);
    }
    let whole: i64 = bbox.2 as i64 * bbox.3 as i64;
    if whole <= 0 {
        return Ratio { num: 0, den: 1 };
    }
    let den: i128 = 2 * whole as i128;
    let filled: u128 = doubled_polygon_area(points);
    if filled <= den as u128 {
        Ratio { num: filled as i128, den }
    } else {
        Ratio { num: den, den }
    }
}

/// The x or the y of a point.
pub open spec fn coordinate(p: (i32, i32), horizontal: bool) -> i32 {
    if horizontal {
        p.0
    } else {
        p.1
    }
}

/// The least coordinate of the points.
pub open spec fn least(points: Seq<(i32, i32)>, horizontal: bool) -> int
    decreases points.len(),
{
    if points.len() <= 1 {
        coordinate(points[0], horizontal) as int
    } else {
        min(
            least(points.drop_last(), horizontal),
            coordinate(points.last(), horizontal) as int,
        )
    }
}

/// The greatest coordinate of the points.
pub open spec fn greatest(points: Seq<(i32, i32)>, horizontal: bool) -> int
    decreases points.len(),
{
    if points.len() <= 1 {
        coordinate(points[0], horizontal) as int
    } else {
        max(
            greatest(points.drop_last(), horizontal),
            coordinate(points.last(), horizontal) as int,
        )
    }
}

/// The box around the points.
pub open spec fn bounds(points: Seq<(i32, i32)>) -> Region {
    (
        least(points, true) as i32,
        least(points, false) as i32,
        (greatest(points, true) - least(points, true)) as i32,
        (greatest(points, false) - least(points, false)) as i32,
    )
}

/// The extents of the points fit a box.
pub open spec fn bounds_fit(points: Seq<(i32, i32)>) -> bool {
    points.len() > 0 ==> {
        &&& greatest(points, true) - least(points, true) <= i32::MAX
        &&& greatest(points, false) - least(points, false) <= i32::MAX
    }
}

/// The box around points is the tightest one: it holds all of them, and one of them lies on each
/// of its sides.
pub proof fn bounds_are_tight(points: Seq<(i32, i32)>, horizontal: bool)
    requires
        points.len() > 0,
    ensures
        forall|i: int|
            0 <= i < points.len() ==> least(points, horizontal) <= coordinate(
                #[trigger] points[i],
                horizontal,
            ) <= greatest(points, horizontal),
        exists|i: int|
            0 <= i < points.len() && coordinate(#[trigger] points[i], horizontal) == least(
                points,
                horizontal,
            ),
        exists|i: int|
            0 <= i < points.len() && coordinate(#[trigger] points[i], horizontal) == greatest(
                points,
                horizontal,
            ),
    decreases points.len(),
{
    if points.len() == 1 {
        assert(coordinate(points[0], horizontal) == least(points, horizontal));
    } else {
        let front = points.drop_last();
        bounds_are_tight(front, horizontal);
        let lo = choose|i: int|
            0 <= i < front.len() && coordinate(#[trigger] front[i], horizontal) == least(
                front,
                horizontal,
            );
        let hi = choose|i: int|
            0 <= i < front.len() && coordinate(#[trigger] front[i], horizontal) == greatest(
                front,
                horizontal,
            );
        assert(points[lo] == front[lo] && points[hi] == front[hi]);
        assert(points[points.len() - 1] == points.last());
        assert forall|i: int| 0 <= i < points.len() implies least(points, horizontal)
            <= coordinate(#[trigger] points[i], horizontal) <= greatest(points, horizontal) by {
            if i < front.len() {
                assert(front[i] == points[i]);
            }
        }
    }
}

/// The box around the points, if there are any.
pub fn bounding_box(points: &[(i32, i32)]) -> (b: Option<Region>)
    requires
        bounds_fit(points@),
    ensures
        b == if points@.len() == 0 {
            None
        } else {
            Some(bounds(points@))
        },
{
    if points.len() == 0 {
        return None;
    }
    let (x, y): (i32, i32) = points[0];
    let (mut min_x, mut max_x, mut min_y, mut max_y): (i32, i32, i32, i32) = (x, x, y, y);
    let mut i: usize = 1;
    while i < points.len()
        invariant
            1 <= i <= points@.len(),
            min_x == least(points@.take(i as int), true),
            max_x == greatest(points@.take(i as int), true),
            min_y == least(points@.take(i as int), false),
            max_y == greatest(points@.take(i as int), false),
        decreases points.len() - i,
    {
        let (px, py): (i32, i32) = points[i];
        proof {
            assert(points@.take(i + 1).drop_last() =~= points@.take(i as int));
        }
        if px < min_x {
            min_x = px;
        }
        if px > max_x {
            max_x = px;
        }
        if py < min_y {
            min_y = py;
        }
        if py > max_y {
            max_y = py;
        }
        i = i + 1;
    }
    proof {
        assert(points@.take(i as int) =~= points@);
        bounds_are_tight(points@, true);
        bounds_are_tight(points@, false);
    }
    Some((min_x, min_y, max_x - min_x, max_y - min_y))
}

/// Number, sum and sum of squares of sampled values: what their standard deviation is made of.
#[derive(Debug, Clone, Copy)]
pub struct Spread {
    pub count: u64,
    pub sum: u128,
    pub sum_sq: u128,
}

impl Spread {
    /// No sample.
    pub open spec fn none() -> Spread {
        Spread { count: 0, sum: 0, sum_sq: 0 }
    }

    /// The samples and one more.
    pub open spec fn with(self, v: int) -> Spread {
        Spread {
            count: (self.count + 1) as u64,
            sum: (self.sum + v) as u128,
            sum_sq: (self.sum_sq + v * v) as u128,
        }
    }

    /// The sums are those of values of one byte.
    pub open spec fn wf(self) -> bool {
        self.sum <= 255 * self.count && self.sum_sq <= 65025 * self.count
    }

    /// Whether the standard deviation is greater than `limit`. The variance is the mean of the
    /// squares less the square of the mean; of no sample it is zero.
    pub open spec fn deviates(self, limit: int) -> bool {
        self.count * self.sum_sq - self.sum * self.sum > limit * limit * (self.count * self.count)
    }

    /// Adds a sample.
    pub(crate) fn record(&mut self, v: u8)
        requires
            old(self).wf(),
            old(self).count < u64::MAX,
        ensures
            final(self).wf(),
            *final(self) == old(self).with(v as int),
    {
        assert(0 <= v * v <= 65025) by (nonlinear_arith)
            requires
                0 <= v <= 255,
        ;
        self.count = self.count + 1;
        self.sum = self.sum + v as u128;
        self.sum_sq = self.sum_sq + v as u128 * v as u128;
    }

    /// Whether the standard deviation is greater than `limit`.
    pub fn exceeds(&self, limit: u8) -> (r: bool)
        requires
            self.wf(),
            self.count <= 0x100_0000_0000,
        ensures
            r == self.deviates(limit as int),
    {
        let (n, s, q) = (self.count as i128, self.sum as i128, self.sum_sq as i128);
        assert(0 <= n * q <= 0x1_0000_0000_0000_0000_0000_0000) by (nonlinear_arith)
            requires
                0 <= n <= 0x100_0000_0000,
                0 <= q <= 65025 * 0x100_0000_0000,
        ;
        assert(0 <= s * s <= 0x1_0000_0000_0000_0000_0000_0000) by (nonlinear_arith)
            requires
                0 <= s <= 255 * 0x100_0000_0000,
        ;
        assert(0 <= n * n <= 0x1_0000_0000_0000_0000_0000) by (nonlinear_arith)
            requires
                0 <= n <= 0x100_0000_0000,
        ;
        assert(0 <= limit * limit <= 65025) by (nonlinear_arith)
            requires
                0 <= limit <= 255,
        ;
        let l: i128 = limit as i128 * limit as i128;
        let nn: i128 = n * n;
        assert(0 <= l * nn <= 0x1_0000_0000_0000_0000_0000_0000) by (nonlinear_arith)
            requires
                0 <= l <= 65025,
                0 <= nn <= 0x1_0000_0000_0000_0000_0000,
        ;
        n * q - s * s > l * nn
    }
}

/// The samples of `spread` and those of the pixels `lo..hi` of a row: those that lie left of the
/// right edge of the picture and have a gray value.
pub open spec fn with_row(
    spread: Spread,
    gray: Seq<u8>,
    img_w: u32,
    row: int,
    lo: int,
    hi: int,
) -> Spread
    decreases hi - lo,
{
    if lo >= hi {
        spread
    } else {
        let before = with_row(spread, gray, img_w, row, lo, hi - 1);
        let at = row * edges::signed(img_w) + (hi - 1);
        if hi - 1 < edges::signed(img_w) && at < gray.len() {
            before.with(gray[at] as int)
        } else {
            before
        }
    }
}

/// The samples of the rows `top..bottom` of a box.
pub open spec fn box_spread(
    gray: Seq<u8>,
    img_w: u32,
    lo: int,
    hi: int,
    top: int,
    bottom: int,
) -> Spread
    decreases bottom - top,
{
    if top >= bottom {
        Spread::none()
    } else {
        with_row(
            box_spread(gray, img_w, lo, hi, top, bottom - 1),
            gray,
            img_w,
            bottom - 1,
            lo,
            hi,
        )
    }
}

/// The gray values within a box.
pub open spec fn region_spread(gray: Seq<u8>, img_w: u32, r: Region) -> Spread {
    box_spread(gray, img_w, max(r.0 as int, 0), r.0 + r.2, max(r.1 as int, 0), r.1 + r.3)
}

fn add_row(spread: &mut Spread, gray: &[u8], img_w: u32, row: i32, lo: i32, hi: i32)
    requires
        old(spread).wf(),
        0 <= row,
        0 <= lo <= hi,
        old(spread).count + (hi - lo) <= u64::MAX,
    ensures
        final(spread).wf(),
        *final(spread) == with_row(
            *old(spread),
            gray@,
            img_w,
            row as int,
            lo as int,
            hi as int,
        ),
        final(spread).count <= old(spread).count + (hi - lo),
{
    let width: i32 = edges::as_signed(img_w);
    let ghost start = *spread;
    let mut col: i32 = lo;
    while col < hi
        invariant
            lo <= col <= hi,
            0 <= lo,
            0 <= row,
            width == edges::signed(img_w),
            spread.wf(),
            start.count + (hi - lo) <= u64::MAX,
            spread.count <= start.count + (col - lo),
            *spread == with_row(start, gray@, img_w, row as int, lo as int, col as int),
        decreases hi - col,
    {
        if col < width {
            proof {
                lemma_product(row as int, width as int);
                assert(row * width >= 0) by (nonlinear_arith)
                    requires
                        row >= 0,
                        width > 0,
                ;
            }
            let at: u64 = (row as i64 * width as i64 + col as i64) as u64;
            if at < gray.len() as u64 {
                spread.record(gray[at as usize]);
            }
        }
        col = col + 1;
    }
}

/// The gray values within a box, for their standard deviation. Pixels outside of the picture are
/// left out.
pub fn std_dev(gray: &[u8], img_w: u32, r: Region) -> (spread: Spread)
    requires
        r.0 + r.2 <= i32::MAX,
        r.1 + r.3 <= i32::MAX,
        i32::MIN <= r.0 + r.2,
        i32::MIN <= r.1 + r.3,
    ensures
        spread.wf(),
        spread == region_spread(gray@, img_w, r),
        r.0 >= 0 && r.1 >= 0 && r.2 >= 0 && r.3 >= 0 ==> spread.count <= area(r),
{
    let (x, y, w, h) = r;
    let mut spread: Spread = Spread { count: 0, sum: 0, sum_sq: 0 };
    let lo: i32 = if x >= 0 {
        x
    } else {
        0
    };
    let hi: i32 = x + w;
    let top: i32 = if y >= 0 {
        y
    } else {
        0
    };
    let bottom: i32 = y + h;
    let ghost width = max(hi - lo, 0);
    let mut row: i32 = top;
    while row < bottom
        invariant
            0 <= lo,
            0 <= top <= row,
            row <= bottom || row == top,
            width == max(hi - lo, 0),
            spread.wf(),
            spread == box_spread(gray@, img_w, lo as int, hi as int, top as int, row as int),
            spread.count <= width * (row - top),
        decreases bottom - row,
    {
        assert(width * (row - top) + width <= 0x8000_0000 * 0x8000_0000) by (nonlinear_arith)
            requires
                0 <= width <= 0x7fff_ffff,
                0 <= row - top <= 0x7fff_ffff,
        ;
        assert(width * (row - top) + width == width * (row + 1 - top)) by (nonlinear_arith);
        if lo <= hi {
            add_row(&mut spread, gray, img_w, row, lo, hi);
        } else {
            assert(with_row(spread, gray@, img_w, row as int, lo as int, hi as int) == spread);
        }
        row = row + 1;
    }
    proof {
        if r.0 >= 0 && r.1 >= 0 && r.2 >= 0 && r.3 >= 0 {
            assert(width == r.2 && row - top == r.3);
        }
        if row != bottom {
            assert(box_spread(gray@, img_w, lo as int, hi as int, top as int, bottom as int)
                == Spread::none());
        }
    }
    spread
}

/// Twice the area of a triangle is the product of its sides from one corner, across each other; the
/// order of the corners makes no difference.
pub proof fn triangles_have_their_area(a: (i32, i32), b: (i32, i32), c: (i32, i32))
    ensures
        ({
            let v = (b.0 - a.0) * (c.1 - a.1) - (c.0 - a.0) * (b.1 - a.1);
            doubled_area(seq![a, b, c]) == if v >= 0 {
                v
            } else {
                -v
            }
        }),
        doubled_area(seq![a, b, c]) == doubled_area(seq![b, c, a]),
        doubled_area(seq![a, b, c]) == doubled_area(seq![a, c, b]),
{
    lemma_triangle(a, b, c);
    lemma_triangle(b, c, a);
    lemma_triangle(a, c, b);
    let (ax, ay, bx, by, cx, cy) = (
        a.0 as int,
        a.1 as int,
        b.0 as int,
        b.1 as int,
        c.0 as int,
        c.1 as int,
    );
    assert((bx - ax) * (cy - ay) - (cx - ax) * (by - ay) == (ax * by - bx * ay) + (bx * cy - cx
        * by) + (cx * ay - ax * cy)) by (nonlinear_arith);
    assert((ax * cy - cx * ay) + (cx * by - bx * cy) + (bx * ay - ax * by) == -((ax * by - bx * ay)
        + (bx * cy - cx * by) + (cx * ay - ax * cy))) by (nonlinear_arith);
}

proof fn lemma_triangle(a: (i32, i32), b: (i32, i32), c: (i32, i32))
    ensures
        shoelace(seq![a, b, c], 3) == cross(a, b) + cross(b, c) + cross(c, a),
{
    let points = seq![a, b, c];
    lemma_side(points, 1);
    lemma_side(points, 2);
    lemma_side(points, 3);
    assert(shoelace(points, 0) == 0);
}

proof fn lemma_side(points: Seq<(i32, i32)>, n: nat)
    requires
        0 < n <= points.len(),
    ensures
        shoelace(points, n) == shoelace(points, (n - 1) as nat) + cross(
            points[n - 1],
            points[if n == points.len() {
                0
            } else {
                n as int
            }],
        ),
{
    let len = points.len() as int;
    if n < len {
        assert(n as int % len == n) by (nonlinear_arith)
            requires
                0 <= n < len,
        ;
    } else {
        assert(n as int % len == 0) by (nonlinear_arith)
            requires
                n == len,
                0 < len,
        ;
    }
}

/// The outline of a rectangle encloses its width times its height.
pub proof fn rectangles_have_their_area(x: i32, y: i32, w: int, h: int)
    requires
        0 <= w,
        0 <= h,
        x + w <= i32::MAX,
        y + h <= i32::MAX,
    ensures
        doubled_area(
            seq![
                (x, y),
                ((x + w) as i32, y),
                ((x + w) as i32, (y + h) as i32),
                (x, (y + h) as i32),
            ],
        ) == 2 * (w * h),
{
    let points = seq![
        (x, y),
        ((x + w) as i32, y),
        ((x + w) as i32, (y + h) as i32),
        (x, (y + h) as i32),
    ];
    lemma_side(points, 1);
    lemma_side(points, 2);
    lemma_side(points, 3);
    lemma_side(points, 4);
    assert(shoelace(points, 0) == 0);
    let (px, py) = (x as int, y as int);
    let (qx, qy) = (x + w, y + h);
    assert((px * py - qx * py) + (qx * qy - qx * py) + (qx * qy - px * qy) + (px * py - px * qy) == 2
        * (w * h)) by (nonlinear_arith)
        requires
            qx == px + w,
            qy == py + h,
    ;
    assert(w * h >= 0) by (nonlinear_arith)
        requires
            0 <= w,
            0 <= h,
    ;
    assert(shoelace(points, 4) == cross(points[0], points[1]) + cross(points[1], points[2])
        + cross(points[2], points[3]) + cross(points[3], points[0]));
}

} // verus!
