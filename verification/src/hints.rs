//! Labels for hint targets, so that a target is picked by typing its label.
//!
//! Targets come from two sources: elements of the accessibility tree, which are precise, and
//! regions of a screenshot, which fill the gaps.

use vstd::prelude::*;

use crate::atspi_scan::{Category, Element};
use crate::grid;
use crate::units;
use crate::vision::boxes;
use crate::vision::regions::VisionRegion;

verus! {

/// How many targets can be told apart by labels of one key.
pub const MAX_SINGLE: usize = 30;

/// How many targets can be told apart by labels of two keys.
pub const MAX_DOUBLE: usize = 900;

/// Where a target comes from.
#[derive(Debug)]
pub enum Source {
    Atspi(Element),
    /// Something is there, but what it is, is not known.
    Vision(VisionRegion),
}

/// A target and the keys that pick it.
#[derive(Debug)]
pub struct HintTarget {
    pub source: Source,
    pub label: String,
}

/// Position and size of what a source found.
pub open spec fn geometry_of(source: Source) -> (i64, i64, i64, i64) {
    match source {
        Source::Atspi(e) => (e.x, e.y, e.w, e.h),
        Source::Vision(v) => (v.x, v.y, v.w, v.h),
    }
}

/// The middle of what a source found.
pub open spec fn center_of(source: Source) -> (i64, i64) {
    let (x, y, w, h) = geometry_of(source);
    (units::sat(x + w as int / 2), units::sat(y + h as int / 2))
}

impl HintTarget {
    /// Position and size.
    pub fn geometry(&self) -> (g: (i64, i64, i64, i64))
        ensures
            g == geometry_of(self.source),
    {
        match &self.source {
            Source::Atspi(e) => (e.x, e.y, e.w, e.h),
            Source::Vision(v) => (v.x, v.y, v.w, v.h),
        }
    }

    /// The middle.
    pub fn center(&self) -> (c: (i64, i64))
        ensures
            c == center_of(self.source),
    {
        let (x, y, w, h) = self.geometry();
        (units::plus(x, units::half(w)), units::plus(y, units::half(h)))
    }

    /// What the target is.
    pub fn category(&self) -> (c: Category)
        ensures
            c == match self.source {
                Source::Atspi(e) => e.category,
                Source::Vision(_) => Category::Other,
            },
    {
        match &self.source {
            Source::Atspi(e) => e.category,
            Source::Vision(_) => Category::Other,
        }
    }
}

/// A part of an area.
#[derive(Debug, Clone, Copy)]
pub struct Overlap {
    pub part: i128,
    pub whole: i128,
}

impl Overlap {
    /// Whether this is more than a half.
    pub open spec fn above_half(self) -> bool {
        2 * self.part > self.whole
    }

    /// Whether this is more than a half.
    pub fn exceeds_half(&self) -> (r: bool)
        requires
            -0x4000_0000_0000_0000_0000_0000_0000_0000 <= self.part
                < 0x4000_0000_0000_0000_0000_0000_0000_0000,
        ensures
            r == self.above_half(),
    {
        2 * self.part > self.whole
    }
}

/// Area of the intersection of two boxes.
pub open spec fn shared_area(a: (i64, i64, i64, i64), b: (i64, i64, i64, i64)) -> int {
    boxes::common(a.0 as int, a.2 as int, b.0 as int, b.2 as int) * boxes::common(
        a.1 as int,
        a.3 as int,
        b.1 as int,
        b.3 as int,
    )
}

/// The area of the smaller one of two boxes.
pub open spec fn smaller_area(a: (i64, i64, i64, i64), b: (i64, i64, i64, i64)) -> int {
    if a.2 * a.3 <= b.2 * b.3 {
        a.2 * a.3
    } else {
        b.2 * b.3
    }
}

/// Whether two boxes show the same thing: their intersection is more than a half of the smaller one.
/// A small element inside of a coarse region counts, though their union is mostly outside of it.
pub open spec fn coincide(a: (i64, i64, i64, i64), b: (i64, i64, i64, i64)) -> bool {
    smaller_area(a, b) > 0 && 2 * shared_area(a, b) > smaller_area(a, b)
}

fn common_of(a: i64, a_len: i64, b: i64, b_len: i64) -> (r: i128)
    ensures
        r == boxes::common(a as int, a_len as int, b as int, b_len as int),
        0 <= r <= 0x7fff_ffff_ffff_ffff,
{
    let start: i128 = if a >= b {
        a as i128
    } else {
        b as i128
    };
    let (a_end, b_end): (i128, i128) = (a as i128 + a_len as i128, b as i128 + b_len as i128);
    let end: i128 = if a_end <= b_end {
        a_end
    } else {
        b_end
    };
    if end > start {
        end - start
    } else {
        0
    }
}

proof fn lemma_area(a: int, b: int)
    requires
        -0x8000_0000_0000_0000 <= a <= 0x7fff_ffff_ffff_ffff,
        -0x8000_0000_0000_0000 <= b <= 0x7fff_ffff_ffff_ffff,
    ensures
        -0x4000_0000_0000_0000_0000_0000_0000_0000 <= a * b
            <= 0x4000_0000_0000_0000_0000_0000_0000_0000,
        0 <= a && 0 <= b ==> 0 <= a * b < 0x4000_0000_0000_0000_0000_0000_0000_0000,
{
    assert(-0x4000_0000_0000_0000_0000_0000_0000_0000 <= a * b
        <= 0x4000_0000_0000_0000_0000_0000_0000_0000) by (nonlinear_arith)
        requires
            -0x8000_0000_0000_0000 <= a <= 0x7fff_ffff_ffff_ffff,
            -0x8000_0000_0000_0000 <= b <= 0x7fff_ffff_ffff_ffff,
    ;
    if 0 <= a && 0 <= b {
        assert(0 <= a * b <= 0x7fff_ffff_ffff_ffff * 0x7fff_ffff_ffff_ffff) by (nonlinear_arith)
            requires
                0 <= a <= 0x7fff_ffff_ffff_ffff,
                0 <= b <= 0x7fff_ffff_ffff_ffff,
        ;
    }
}

/// The intersection of two boxes as a part of the smaller one; nothing if that is empty.
pub fn overlap_ratio(a: (i64, i64, i64, i64), b: (i64, i64, i64, i64)) -> (o: Overlap)
    ensures
        o.part == if smaller_area(a, b) > 0 {
            shared_area(a, b)
        } else {
            0
        },
        o.whole == if smaller_area(a, b) > 0 {
            smaller_area(a, b)
        } else {
            1
        },
        o.above_half() == coincide(a, b),
        0 <= o.part < 0x4000_0000_0000_0000_0000_0000_0000_0000,
{
    let iw: i128 = common_of(a.0, a.2, b.0, b.2);
    let ih: i128 = common_of(a.1, a.3, b.1, b.3);
    proof {
        lemma_area(iw as int, ih as int);
        lemma_area(a.2 as int, a.3 as int);
        lemma_area(b.2 as int, b.3 as int);
    }
    let intersection: i128 = iw * ih;
    let (a_area, b_area): (i128, i128) = (a.2 as i128 * a.3 as i128, b.2 as i128 * b.3 as i128);
    let smaller: i128 = if a_area <= b_area {
        a_area
    } else {
        b_area
    };
    if smaller <= 0 {
        Overlap { part: 0, whole: 1 }
    } else {
        Overlap { part: intersection, whole: smaller }
    }
}

/// Whether an element shows what a region does.
pub open spec fn covered(elements: Seq<Element>, v: VisionRegion) -> bool {
    exists|i: int|
        0 <= i < elements.len() && coincide(
            geometry_of(Source::Atspi(#[trigger] elements[i])),
            (v.x, v.y, v.w, v.h),
        )
}

/// The regions that no element shows.
pub open spec fn uncovered(elements: Seq<Element>, regions: Seq<VisionRegion>) -> Seq<VisionRegion>
    decreases regions.len(),
{
    if regions.len() == 0 {
        Seq::empty()
    } else {
        let before = uncovered(elements, regions.drop_last());
        if covered(elements, regions.last()) {
            before
        } else {
            before.push(regions.last())
        }
    }
}

/// The elements, and behind them the regions that none of them shows; no more than can be labeled.
pub open spec fn sources(elements: Seq<Element>, regions: Seq<VisionRegion>) -> Seq<Source> {
    let kept = uncovered(elements, regions);
    let all = elements.len() + kept.len();
    Seq::new(
        if all > MAX_DOUBLE {
            MAX_DOUBLE as nat
        } else {
            all
        },
        |i: int|
            if i < elements.len() {
                Source::Atspi(elements[i])
            } else {
                Source::Vision(kept[i - elements.len()])
            },
    )
}

/// The label of the `i`th of `n` targets: a key if there are enough of them for all, two otherwise.
pub open spec fn label_of(i: int, n: nat) -> Seq<char> {
    if n > MAX_SINGLE {
        seq![grid::letter(i / (MAX_SINGLE as int)), grid::letter(i % (MAX_SINGLE as int))]
    } else {
        seq![grid::letter(i)]
    }
}

/// Whether `targets` are the given sources with their labels.
pub open spec fn are_labeled(targets: Seq<HintTarget>, from: Seq<Source>) -> bool {
    &&& targets.len() == from.len()
    &&& forall|i: int|
        0 <= i < targets.len() ==> (#[trigger] targets[i]).source == from[i]
            && targets[i].label@ == label_of(i, from.len())
}

fn is_covered(elements: &Vec<Element>, v: VisionRegion) -> (r: bool)
    ensures
        r == covered(elements@, v),
{
    let mut i: usize = 0;
    while i < elements.len()
        invariant
            i <= elements@.len(),
            forall|k: int|
                0 <= k < i ==> !coincide(
                    geometry_of(Source::Atspi(#[trigger] elements@[k])),
                    (v.x, v.y, v.w, v.h),
                ),
        decreases elements.len() - i,
    {
        let e: &Element = &elements[i];
        if overlap_ratio((e.x, e.y, e.w, e.h), (v.x, v.y, v.w, v.h)).exceeds_half() {
            assert(coincide(
                geometry_of(Source::Atspi(elements@[i as int])),
                (v.x, v.y, v.w, v.h),
            ));
            return true;
        }
        i = i + 1;
    }
    false
}

fn drop_covered(elements: &Vec<Element>, regions: &Vec<VisionRegion>) -> (kept: Vec<VisionRegion>)
    ensures
        kept@ == uncovered(elements@, regions@),
{
    let mut kept: Vec<VisionRegion> = Vec::new();
    let mut i: usize = 0;
    while i < regions.len()
        invariant
            i <= regions@.len(),
            kept@ == uncovered(elements@, regions@.take(i as int)),
        decreases regions.len() - i,
    {
        proof {
            assert(regions@.take(i + 1).drop_last() =~= regions@.take(i as int));
        }
        if !is_covered(elements, regions[i]) {
            kept.push(regions[i]);
        }
        i = i + 1;
    }
    assert(regions@.take(i as int) =~= regions@);
    kept
}

fn make_label(alphabet: &Vec<char>, i: usize, n: usize) -> (label: String)
    requires
        alphabet@ == grid::alphabet(),
        i < n <= MAX_DOUBLE,
    ensures
        label@ == label_of(i as int, n as nat),
{
    let mut label: String = String::new();
    if n > MAX_SINGLE {
        label.push(alphabet[i / MAX_SINGLE]);
        label.push(alphabet[i % MAX_SINGLE]);
    } else {
        label.push(alphabet[i]);
    }
    assert(label@ =~= label_of(i as int, n as nat));
    label
}

/// Merges elements and regions into targets and labels them. A region that an element shows as well
/// is dropped: the element is more precise and has a name. Labels are of one key if there are few
/// enough targets and of two keys otherwise, never of both, so that none begins another.
pub fn assign_labels(
    atspi_elements: Vec<Element>,
    vision_regions: Vec<VisionRegion>,
) -> (targets: Vec<HintTarget>)
    ensures
        are_labeled(targets@, sources(atspi_elements@, vision_regions@)),
{
    let ghost elements = atspi_elements@;
    let ghost all = sources(atspi_elements@, vision_regions@);
    let kept: Vec<VisionRegion> = drop_covered(&atspi_elements, &vision_regions);
    let alphabet: Vec<char> = grid::hint_alphabet();
    let count: usize = atspi_elements.len();
    let n: usize = if count >= MAX_DOUBLE || kept.len() > MAX_DOUBLE - count {
        MAX_DOUBLE
    } else {
        count + kept.len()
    };
    let mut rest: Vec<Element> = atspi_elements;
    let mut targets: Vec<HintTarget> = Vec::new();
    let mut i: usize = 0;
    assert(rest@ =~= elements.skip(0));
    while i < n
        invariant
            i <= n <= MAX_DOUBLE,
            n == all.len(),
            all == sources(elements, vision_regions@),
            kept@ == uncovered(elements, vision_regions@),
            count == elements.len(),
            alphabet@ == grid::alphabet(),
            i < count ==> rest@ == elements.skip(i as int),
            targets@.len() == i,
            forall|k: int|
                0 <= k < i ==> (#[trigger] targets@[k]).source == all[k] && targets@[k].label@
                    == label_of(k, n as nat),
        decreases n - i,
    {
        let label: String = make_label(&alphabet, i, n);
        let source: Source = if i < count {
            let e: Element = rest.remove(0);
            assert(e == elements[i as int]);
            assert(rest@ =~= elements.skip(i + 1));
            Source::Atspi(e)
        } else {
            Source::Vision(kept[i - count])
        };
        assert(source == all[i as int]);
        targets.push(HintTarget { source, label });
        i = i + 1;
    }
    targets
}

/// Whether `a` begins `b`.
pub open spec fn begins(a: Seq<char>, b: Seq<char>) -> bool {
    a.len() <= b.len() && b.take(a.len() as int) == a
}

/// Labels are all of the same length, no two are the same, and so none begins another. They are made
/// of the keys of the alphabet.
pub proof fn labels_are_unambiguous(i: int, j: int, n: nat)
    requires
        0 <= i < n,
        0 <= j < n,
        i != j,
        n <= MAX_DOUBLE,
    ensures
        label_of(i, n).len() == label_of(j, n).len(),
        label_of(i, n) != label_of(j, n),
        !begins(label_of(i, n), label_of(j, n)),
        forall|k: int|
            0 <= k < label_of(i, n).len() ==> grid::alphabet().contains(
                #[trigger] label_of(i, n)[k],
            ),
{
    let (a, b) = (label_of(i, n), label_of(j, n));
    if n > MAX_SINGLE {
        if i / 30 != j / 30 {
            grid::alphabet_has_no_repeats(i / 30, j / 30);
            assert(a[0] != b[0]);
        } else {
            grid::alphabet_has_no_repeats(i % 30, j % 30);
            assert(a[1] != b[1]);
        }
        assert(grid::alphabet()[i / 30] == a[0] && grid::alphabet()[i % 30] == a[1]);
    } else {
        grid::alphabet_has_no_repeats(i, j);
        assert(a[0] != b[0]);
        assert(grid::alphabet()[i] == a[0]);
    }
    assert(b.take(a.len() as int) =~= b);
}

/// Elements come before regions, and a region that an element shows is no target.
pub proof fn elements_come_first(elements: Seq<Element>, regions: Seq<VisionRegion>, i: int)
    requires
        0 <= i < sources(elements, regions).len(),
    ensures
        i < elements.len() <==> sources(elements, regions)[i] is Atspi,
        sources(elements, regions)[i] matches Source::Vision(v) ==> !covered(elements, v)
            && regions.contains(v),
{
    if i >= elements.len() {
        lemma_uncovered(elements, regions);
        let kept = uncovered(elements, regions);
        assert(kept.contains(kept[i - elements.len()]));
    }
}

proof fn lemma_uncovered(elements: Seq<Element>, regions: Seq<VisionRegion>)
    ensures
        forall|v: VisionRegion|
            #[trigger] uncovered(elements, regions).contains(v) ==> !covered(elements, v)
                && regions.contains(v),
        uncovered(elements, regions).len() <= regions.len(),
    decreases regions.len(),
{
    if regions.len() > 0 {
        let front = regions.drop_last();
        let before = uncovered(elements, front);
        let all = uncovered(elements, regions);
        lemma_uncovered(elements, front);
        assert forall|v: VisionRegion| #[trigger] all.contains(v) implies !covered(elements, v)
            && regions.contains(v) by {
            let i = choose|i: int| 0 <= i < all.len() && all[i] == v;
            if i < before.len() {
                assert(before[i] == v);
                assert(before.contains(v));
                let k = choose|k: int| 0 <= k < front.len() && front[k] == v;
                assert(regions[k] == v);
            } else {
                assert(regions[regions.len() - 1] == v);
            }
        }
    }
}

/// How far two ranges run beside each other; less than nothing where they are apart.
pub open spec fn beside(a: int, a_len: int, b: int, b_len: int) -> int {
    (if a + a_len < b + b_len {
        a + a_len
    } else {
        b + b_len
    }) - (if a < b {
        b
    } else {
        a
    })
}

/// Whether an element and a region cover more than a half of the smaller one of the two together.
pub open spec fn show_the_same(e: Element, v: VisionRegion) -> bool {
    let across = beside(e.x as int, e.w as int, v.x as int, v.w as int);
    let down = beside(e.y as int, e.h as int, v.y as int, v.h as int);
    &&& e.w * e.h > 0
    &&& v.w * v.h > 0
    &&& across > 0
    &&& down > 0
    &&& 2 * (across * down) > e.w * e.h || 2 * (across * down) > v.w * v.h
}

/// An element shows what a region does if they cover more than a half of the smaller one together.
pub proof fn elements_cover_regions_by_more_than_half(elements: Seq<Element>, v: VisionRegion)
    ensures
        covered(elements, v) <==> exists|i: int|
            0 <= i < elements.len() && show_the_same(#[trigger] elements[i], v),
{
    assert forall|i: int| 0 <= i < elements.len() implies show_the_same(#[trigger] elements[i], v)
        == coincide(geometry_of(Source::Atspi(elements[i])), (v.x, v.y, v.w, v.h)) by {
        let e = elements[i];
        let across = beside(e.x as int, e.w as int, v.x as int, v.w as int);
        let down = beside(e.y as int, e.h as int, v.y as int, v.h as int);
        let (p, q) = (
            boxes::common(e.x as int, e.w as int, v.x as int, v.w as int),
            boxes::common(e.y as int, e.h as int, v.y as int, v.h as int),
        );
        assert(p == if across > 0 {
            across
        } else {
            0
        });
        assert(q == if down > 0 {
            down
        } else {
            0
        });
        assert(p * q == if across > 0 && down > 0 {
            across * down
        } else {
            0
        }) by (nonlinear_arith)
            requires
                p == if across > 0 {
                    across
                } else {
                    0
                },
                q == if down > 0 {
                    down
                } else {
                    0
                },
        ;
    }
    if exists|i: int| 0 <= i < elements.len() && show_the_same(#[trigger] elements[i], v) {
        let i = choose|i: int| 0 <= i < elements.len() && show_the_same(#[trigger] elements[i], v);
        assert(coincide(geometry_of(Source::Atspi(elements[i])), (v.x, v.y, v.w, v.h)));
    }
    if covered(elements, v) {
        let i = choose|i: int|
            0 <= i < elements.len() && coincide(
                geometry_of(Source::Atspi(#[trigger] elements[i])),
                (v.x, v.y, v.w, v.h),
            );
        assert(show_the_same(elements[i], v));
    }
}

proof fn lemma_uncovered_is_filtered(elements: Seq<Element>, regions: Seq<VisionRegion>)
    ensures
        uncovered(elements, regions) == regions.filter(|v: VisionRegion| !covered(elements, v)),
    decreases regions.len(),
{
    reveal(Seq::filter);
    if regions.len() > 0 {
        lemma_uncovered_is_filtered(elements, regions.drop_last());
    } else {
        assert(uncovered(elements, regions) =~= regions);
    }
}

/// Whether an element shows what a region does.
pub open spec fn shown_by_one(elements: Seq<Element>, v: VisionRegion) -> bool {
    exists|i: int| 0 <= i < elements.len() && show_the_same(#[trigger] elements[i], v)
}

/// No region is lost: of the given regions, all that no element shows are kept, in the given order and
/// as often as they are given, and no others.
pub proof fn no_region_is_lost(elements: Seq<Element>, regions: Seq<VisionRegion>)
    ensures
        uncovered(elements, regions) == regions.filter(
            |v: VisionRegion| !shown_by_one(elements, v),
        ),
{
    lemma_uncovered_is_filtered(elements, regions);
    let (f, g) = (
        |v: VisionRegion| !covered(elements, v),
        |v: VisionRegion| !shown_by_one(elements, v),
    );
    assert forall|v: VisionRegion| #[trigger] f(v) == g(v) by {
        elements_cover_regions_by_more_than_half(elements, v);
    }
    assert(f =~= g);
}

/// Every element and every region that no element shows is a target, first the elements and then the
/// regions, each in the given order; if there are more than nine hundred, the first nine hundred are.
pub proof fn everything_found_is_a_target(elements: Seq<Element>, regions: Seq<VisionRegion>)
    ensures
        ({
            let all = elements.map_values(|e: Element| Source::Atspi(e)) + regions.filter(
                |v: VisionRegion| !shown_by_one(elements, v),
            ).map_values(|v: VisionRegion| Source::Vision(v));
            &&& all.len() <= 900 ==> sources(elements, regions) == all
            &&& all.len() > 900 ==> sources(elements, regions) == all.take(900)
        }),
{
    no_region_is_lost(elements, regions);
    let all = elements.map_values(|e: Element| Source::Atspi(e)) + regions.filter(
        |v: VisionRegion| !shown_by_one(elements, v),
    ).map_values(|v: VisionRegion| Source::Vision(v));
    if all.len() <= 900 {
        assert(sources(elements, regions) =~= all);
    } else {
        assert(sources(elements, regions) =~= all.take(900));
    }
}

/// Below nine hundred targets, a region that no element shows is one of them.
pub proof fn an_uncovered_region_gets_a_label(
    elements: Seq<Element>,
    regions: Seq<VisionRegion>,
    targets: Seq<HintTarget>,
    k: int,
)
    requires
        elements.len() + regions.len() <= 900,
        are_labeled(targets, sources(elements, regions)),
        0 <= k < regions.len(),
        !shown_by_one(elements, regions[k]),
    ensures
        exists|i: int|
            0 <= i < targets.len() && (#[trigger] targets[i]).source == Source::Vision(regions[k])
                && targets[i].label@.len() > 0,
{
    let keep = |v: VisionRegion| !shown_by_one(elements, v);
    let kept = regions.filter(keep);
    everything_found_is_a_target(elements, regions);
    regions.lemma_filter_len(keep);
    regions.lemma_filter_contains(keep, k);
    let j = choose|j: int| 0 <= j < kept.len() && kept[j] == regions[k];
    let i = elements.len() + j;
    assert(sources(elements, regions)[i] == Source::Vision(regions[k]));
    assert(targets[i].source == Source::Vision(regions[k]));
}

/// Up to thirty targets are labeled with one key each, in the order of the alphabet, and more with
/// two. Of these, the second counts up first, and the first whenever the second starts anew.
pub proof fn labels_count_up(i: int, n: nat)
    requires
        0 <= i < n <= 900,
    ensures
        n <= 30 ==> label_of(i, n) == seq![grid::alphabet()[i]],
        n > 30 ==> {
            &&& label_of(i, n).len() == 2
            &&& i < 30 ==> label_of(i, n)[0] == grid::alphabet()[0]
            &&& i < 30 ==> label_of(i, n)[1] == grid::alphabet()[i]
            &&& i >= 30 ==> label_of(i, n)[1] == label_of(i - 30, n)[1]
            &&& i >= 30 ==> exists|k: int|
                0 <= k < 29 && label_of(i - 30, n)[0] == #[trigger] grid::alphabet()[k]
                    && label_of(i, n)[0] == grid::alphabet()[k + 1]
        },
{
    if n > 30 && i >= 30 {
        let k = (i - 30) / 30;
        assert(label_of(i - 30, n)[0] == grid::alphabet()[k]);
        assert(label_of(i, n)[0] == grid::alphabet()[k + 1]);
    }
}

/// The middle of a target is half of its width and half of its height from its corner.
pub proof fn centers_are_in_the_middle(source: Source)
    requires
        ({
            let (x, y, w, h) = match source {
                Source::Atspi(e) => (e.x, e.y, e.w, e.h),
                Source::Vision(v) => (v.x, v.y, v.w, v.h),
            };
            0 <= w && 0 <= h && x + w <= i64::MAX && y + h <= i64::MAX
        }),
    ensures
        ({
            let (x, y, w, h) = match source {
                Source::Atspi(e) => (e.x, e.y, e.w, e.h),
                Source::Vision(v) => (v.x, v.y, v.w, v.h),
            };
            let (cx, cy) = center_of(source);
            &&& 0 <= (x + w - cx) - (cx - x) <= 1
            &&& 0 <= (y + h - cy) - (cy - y) <= 1
        }),
{
}

} // verus!
